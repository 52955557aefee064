//! The unifier: decides whether two variables' types can be made
//! structurally equal and, when they can, merges them in the store.
//!
//! Recursion depth is bounded by an explicit budget; the public entries start
//! from a budget deep enough for any realistic type tree, and a type deeper
//! than the budget is reported as a mismatch.

use vstd::prelude::*;

use crate::collections::{
    get_shared, get_shared_tags, lemma_map_of_dom, lemma_map_of_index, relative_complement,
    tag_relative_complement, tag_union, union, FieldMap, TagMap, VarSet,
};
use crate::subs::{err_type_matches, Subs, EMPTY_RECORD_VAR, EMPTY_TAG_UNION_VAR};
use crate::types::{
    alias_args_ok, bool_ok, clone_alias_args, clone_vars, content_ok, content_wf, fields_ok, flat_ok,
    flat_wf, lemma_content_ok_mono, members_ok, tags_ok, vars_ok, Bool, BoolV, Content, ContentV,
    Descriptor, DescriptorV, ErrorType, FlatType, FlatTypeV, Lowercase, Mismatch, Problem,
    RecordField, Symbol, TagName, Variable, ATTR_ATTR, MARK_NONE,
};

verus! {

broadcast use vstd::set::group_set_axioms, vstd::seq::group_seq_axioms;

/// The list of freshly registered variables that a caller must add to its
/// rank pool.
pub type Pool = Vec<Variable>;

/// The mismatches accumulated by one unification; empty means success.
pub type Outcome = Vec<Mismatch>;

/// The recursion budget the public entries start from.
pub const UNIFY_FUEL: u64 = 1_000_000_000;

/// The pair of variables being unified, with the descriptors they had when
/// the unification started.
pub struct Context {
    first: Variable,
    first_desc: Descriptor,
    second: Variable,
    second_desc: Descriptor,
}

impl Context {
    /// The first variable.
    pub closed spec fn first_spec(&self) -> Variable {
        self.first
    }

    /// The second variable.
    pub closed spec fn second_spec(&self) -> Variable {
        self.second
    }

    /// The first variable's descriptor at the start.
    pub closed spec fn first_desc_spec(&self) -> DescriptorV {
        self.first_desc@
    }

    /// The second variable's descriptor at the start.
    pub closed spec fn second_desc_spec(&self) -> DescriptorV {
        self.second_desc@
    }

    /// The smaller of the two ranks: the rank a merged descriptor receives.
    pub open spec fn min_rank(&self) -> u32 {
        if self.first_desc_spec().rank <= self.second_desc_spec().rank {
            self.first_desc_spec().rank
        } else {
            self.second_desc_spec().rank
        }
    }
}

/// How one top-level unification ended.
#[derive(Debug)]
pub enum Unified {
    /// The variables were merged; the pool holds the fresh variables.
    Success(Pool),
    /// The types are incompatible; both variables are now poisoned, and the
    /// two projected error types feed diagnostics.
    Failure(Pool, ErrorType, ErrorType),
    /// Projection itself surfaced a defect in the input.
    BadType(Pool, Problem),
}

// ---------------------------------------------------------------------------
// The contracts shared by the unification routines.
// ---------------------------------------------------------------------------

/// The pool grew by appending, and every appended variable was allocated
/// during the call.
pub open spec fn pool_lower_ok(pre_pool: Seq<Variable>, post_pool: Seq<Variable>, pre_n: int) -> bool {
    &&& pre_pool.is_prefix_of(post_pool)
    &&& forall|i: int| pre_pool.len() <= i < post_pool.len() ==> pre_n <= #[trigger] post_pool[i]
}

/// Every appended pool variable is a variable of the store.
pub open spec fn pool_upper_ok(
    pre_pool: Seq<Variable>,
    post_pool: Seq<Variable>,
    post_n: int,
) -> bool {
    forall|i: int| pre_pool.len() <= i < post_pool.len() ==> #[trigger] post_pool[i] < post_n
}

/// Chains the pool bounds of two consecutive calls.
pub proof fn lemma_pool_compose(
    p0: Seq<Variable>,
    p1: Seq<Variable>,
    p2: Seq<Variable>,
    n0: int,
    n1: int,
    n2: int,
)
    requires
        pool_lower_ok(p0, p1, n0),
        pool_lower_ok(p1, p2, n1),
        n0 <= n1 <= n2,
    ensures
        pool_lower_ok(p0, p2, n0),
        pool_upper_ok(p0, p1, n1) && pool_upper_ok(p1, p2, n2) ==> pool_upper_ok(p0, p2, n2),
{
    assert(p0.is_prefix_of(p2)) by {
        assert(p0 =~= p2.subrange(0, p0.len() as int)) by {
            assert(p0 =~= p1.subrange(0, p0.len() as int));
            assert(p1 =~= p2.subrange(0, p1.len() as int));
        }
    }
    assert forall|i: int| p0.len() <= i < p2.len() implies n0 <= #[trigger] p2[i] by {
        if i < p1.len() {
            assert(p1 =~= p2.subrange(0, p1.len() as int));
            assert(p2[i] == p1[i]);
        }
    }
    if pool_upper_ok(p0, p1, n1) && pool_upper_ok(p1, p2, n2) {
        assert forall|i: int| p0.len() <= i < p2.len() implies #[trigger] p2[i] < n2 by {
            if i < p1.len() {
                assert(p1 =~= p2.subrange(0, p1.len() as int));
                assert(p2[i] == p1[i]);
            }
        }
    }
}

/// Classes other than the two being merged keep their roots and descriptors.
pub open spec fn others_untouched(pre: Subs, post: Subs, first: Variable, second: Variable) -> bool {
    forall|v: Variable| v < pre.n() && !pre.equiv(v, first) && !pre.equiv(v, second)
        ==> #[trigger] post.desc_at(v) == pre.desc_at(v) && post.root_spec(v) == pre.root_spec(v)
}

/// What the dispatcher guarantees about the shallow content pairs: flex
/// absorbs, rigid only unifies with flex, and `Error` propagates as success.
pub open spec fn ctx_outcome_ok(
    pre: Subs,
    post: Subs,
    first: Variable,
    second: Variable,
    c1: ContentV,
    c2: ContentV,
    ok: bool,
) -> bool {
    &&& ((c1 is Error || c2 is Error) ==> ok && post.equiv(first, second) && post.content_at(first)
        == ContentV::Error && others_untouched(pre, post, first, second))
    &&& ((c1 is RigidVar && (c2 is RigidVar || c2 is Structure || c2 is Alias)) ==> !ok && post@
        == pre@)
    &&& ((c1 is Structure && c2 is RigidVar) ==> !ok && post@ == pre@)
    &&& ((c1 is FlexVar && !(c2 is Error)) ==> ok && post.equiv(first, second) && post.content_at(
        first,
    ) == (if c2 == ContentV::FlexVar(None::<Lowercase>) {
        c1
    } else {
        c2
    }) && others_untouched(pre, post, first, second))
    &&& (((c1 is RigidVar || c1 is Structure || c1 is Alias) && c2 is FlexVar) ==> ok && post.equiv(
        first,
        second,
    ) && post.content_at(first) == c1 && others_untouched(pre, post, first, second))
    &&& (c1 matches ContentV::Alias(s1, args1, _r1) ==> (c2 matches ContentV::Alias(
        s2,
        args2,
        _r2,
    ) ==> {
        &&& (s1 == s2 && args1.len() != args2.len() ==> !ok)
        &&& (s1 == s2 && ok ==> post.equiv(first, second) && post.content_at(first) == c2)
    }))
    &&& (c1 matches ContentV::Structure(f1) ==> (c2 matches ContentV::Structure(f2) ==> {
        &&& (flat_verdict(f1, f2) matches Some(v) ==> ok == v)
        &&& (f1 is EmptyRecord && f2 is EmptyRecord ==> ok && post.equiv(first, second)
            && post.content_at(first) == ContentV::Structure(FlatTypeV::EmptyRecord))
        &&& (f1 is EmptyTagUnion && f2 is EmptyTagUnion ==> ok && post.equiv(first, second)
            && post.content_at(first) == ContentV::Structure(FlatTypeV::EmptyTagUnion))
        &&& (f1 is Apply ==> (f2 matches FlatTypeV::Apply(s2, a2) ==> (ok ==> post.equiv(
            first,
            second,
        ) && post.content_at(first) == ContentV::Structure(FlatTypeV::Apply(s2, a2)))))
        &&& (f1 is Func ==> (f2 matches FlatTypeV::Func(a2, c2v, r2) ==> (ok ==> post.equiv(
            first,
            second,
        ) && post.content_at(first) == ContentV::Structure(FlatTypeV::Func(a2, c2v, r2)))))
        &&& (f1 is Boolean && f2 is Boolean && ok ==> post.equiv(first, second) && (
        post.content_at(first) matches ContentV::Structure(FlatTypeV::Boolean(_))))
        &&& (f1 matches FlatTypeV::Boolean(b1) ==> (f2 matches FlatTypeV::Boolean(b2) ==> {
            &&& (simplify_bool_spec(pre, b1) is Shared && simplify_bool_spec(pre, b2) is Shared
                ==> ok && post.equiv(first, second) && post.content_at(first) == c1)
            &&& ((simplify_bool_spec(pre, b1) is Shared && simplify_bool_spec(pre, b2) is Container)
                || (simplify_bool_spec(pre, b1) is Container && simplify_bool_spec(
                pre,
                b2,
            ) is Shared) ==> post.equiv(first, second) && post.content_at(first)
                == ContentV::Structure(FlatTypeV::Boolean(BoolV::Shared)))
            &&& (simplify_bool_spec(pre, b1) matches BoolV::Container(cv1, _m1) ==> (
            simplify_bool_spec(pre, b2) is Container ==> (post.content_at(first)
                matches ContentV::Structure(FlatTypeV::Boolean(BoolV::Container(cc, _mm))) && cc
                == cv1)))
        }))
        &&& (f1 matches FlatTypeV::Record(fs1, _x1) ==> (f2 matches FlatTypeV::Record(fs2, _x2)
            ==> {
            &&& ((exists|k: Lowercase|
                #![trigger fs1[k], fs2[k]]
                fs1.dom().contains(k) && fs2.dom().contains(k) && spec_combine_fields(
                    fs1[k],
                    fs2[k],
                ) is None) ==> !ok)
            &&& (ok ==> post.equiv(first, second) && (post.content_at(first)
                matches ContentV::Structure(FlatTypeV::Record(m, _)) && forall|k: Lowercase|
                fs1.dom().contains(k) && #[trigger] fs2.dom().contains(k) ==> m.dom().contains(k)))
        }))
        &&& (f1 matches FlatTypeV::TagUnion(ts1, _y1) ==> (f2 matches FlatTypeV::TagUnion(ts2, _y2)
            ==> {
            &&& ((exists|k: TagName|
                #![trigger ts1[k], ts2[k]]
                ts1.dom().contains(k) && ts2.dom().contains(k) && ts1[k].len() != ts2[k].len())
                ==> !ok)
            &&& (ok ==> post.equiv(first, second) && (tag_row_of(post.content_at(first))
                matches Some(m) && forall|k: TagName|
                ts1.dom().contains(k) && #[trigger] ts2.dom().contains(k) ==> m.dom().contains(k)))
        }))
        &&& ((f1 is RecursiveTagUnion || f2 is RecursiveTagUnion) && ok ==> post.equiv(
            first,
            second,
        ) && is_recursive_tag_union_structure(post.content_at(first)))
        &&& (f1 matches FlatTypeV::RecursiveTagUnion(r1, _t1, _e1) ==> (ok ==> (post.content_at(
            first,
        ) matches ContentV::Structure(FlatTypeV::RecursiveTagUnion(rec, _, _)) && rec == r1)))
        &&& (f1 is TagUnion ==> (f2 matches FlatTypeV::RecursiveTagUnion(r2, _t2, _e2) ==> (ok
            ==> (post.content_at(first) matches ContentV::Structure(
            FlatTypeV::RecursiveTagUnion(rec, _, _),
        ) && rec == r2))))
    }))
}

/// What one `unify_pool` call guarantees: already-equivalent variables are a
/// no-op, and otherwise the shallow dispatch table holds.
pub open spec fn unify_outcome_ok(
    pre: Subs,
    post: Subs,
    a: Variable,
    b: Variable,
    ok: bool,
) -> bool {
    &&& (pre.equiv(a, b) ==> ok && post@ == pre@)
    &&& (!pre.equiv(a, b) ==> ctx_outcome_ok(
        pre,
        post,
        a,
        b,
        pre.content_at(a),
        pre.content_at(b),
        ok,
    ))
}

/// Every field of the map is optional.
pub open spec fn only_optional(fields: Map<Lowercase, RecordField>) -> bool {
    forall|k: Lowercase| #[trigger] fields.dom().contains(k) ==> fields[k] is Optional
}

/// What the flat-type case table decides from the two heads alone:
/// `Some(true)` is success, `Some(false)` failure, and `None` an outcome that
/// depends on the rows' contents.
pub open spec fn flat_verdict(f1: FlatTypeV, f2: FlatTypeV) -> Option<bool> {
    match (f1, f2) {
        (FlatTypeV::EmptyRecord, FlatTypeV::EmptyRecord) => Some(true),
        (FlatTypeV::EmptyTagUnion, FlatTypeV::EmptyTagUnion) => Some(true),
        (FlatTypeV::Record(fields, _), FlatTypeV::EmptyRecord) => if only_optional(fields) {
            None
        } else {
            Some(false)
        },
        (FlatTypeV::EmptyRecord, FlatTypeV::Record(fields, _)) => if only_optional(fields) {
            None
        } else {
            Some(false)
        },
        (FlatTypeV::TagUnion(tags, _), FlatTypeV::EmptyTagUnion) => if tags.dom() =~= Set::empty() {
            None
        } else {
            Some(false)
        },
        (FlatTypeV::EmptyTagUnion, FlatTypeV::TagUnion(tags, _)) => if tags.dom() =~= Set::empty() {
            None
        } else {
            Some(false)
        },
        (FlatTypeV::Apply(s1, _), FlatTypeV::Apply(s2, _)) => if s1 != s2 {
            Some(false)
        } else {
            None
        },
        (FlatTypeV::Func(a1, _, _), FlatTypeV::Func(a2, _, _)) => if a1.len() != a2.len() {
            Some(false)
        } else {
            None
        },
        (FlatTypeV::Record(_, _), FlatTypeV::Record(_, _)) => None,
        (FlatTypeV::TagUnion(_, _), FlatTypeV::TagUnion(_, _)) => None,
        (FlatTypeV::RecursiveTagUnion(_, _, _), FlatTypeV::TagUnion(_, _)) => None,
        (FlatTypeV::TagUnion(_, _), FlatTypeV::RecursiveTagUnion(_, _, _)) => None,
        (FlatTypeV::RecursiveTagUnion(_, _, _), FlatTypeV::RecursiveTagUnion(_, _, _)) => None,
        (FlatTypeV::Boolean(_), FlatTypeV::Boolean(_)) => None,
        // Every remaining pairing is of two different shapes: a mismatch.
        _ => Some(false),
    }
}

/// The content is a concrete record.
pub open spec fn is_record_structure(c: ContentV) -> bool {
    c matches ContentV::Structure(FlatTypeV::Record(_, _))
}

/// The content is a concrete non-recursive tag union.
pub open spec fn is_tag_union_structure(c: ContentV) -> bool {
    c matches ContentV::Structure(FlatTypeV::TagUnion(_, _))
}

/// The content is a concrete recursive tag union.
pub open spec fn is_recursive_tag_union_structure(c: ContentV) -> bool {
    c matches ContentV::Structure(FlatTypeV::RecursiveTagUnion(_, _, _))
}

/// The tag row of a concrete tag union, recursive or not.
pub open spec fn tag_row_of(c: ContentV) -> Option<Map<TagName, Seq<Variable>>> {
    match c {
        ContentV::Structure(FlatTypeV::TagUnion(m, _)) => Some(m),
        ContentV::Structure(FlatTypeV::RecursiveTagUnion(_, m, _)) => Some(m),
        _ => None,
    }
}

/// The flat-type table is symmetric: it decides a swapped pair the same way.
pub proof fn lemma_flat_verdict_symmetric(f1: FlatTypeV, f2: FlatTypeV)
    ensures
        (flat_verdict(f1, f2) matches Some(v) ==> flat_verdict(f2, f1) == Some(v)),
{
}

/// What the dispatch table decides from the two shallow contents alone:
/// `Some(true)` is success, `Some(false)` failure, and `None` an outcome that
/// depends on deeper structure.
pub open spec fn shallow_verdict(c1: ContentV, c2: ContentV) -> Option<bool> {
    if c1 is Error || c2 is Error {
        Some(true)
    } else if c1 is FlexVar || c2 is FlexVar {
        Some(true)
    } else if c1 is RigidVar && (c2 is RigidVar || c2 is Structure || c2 is Alias) {
        Some(false)
    } else if c1 is Structure && c2 is RigidVar {
        Some(false)
    } else {
        match (c1, c2) {
            (ContentV::Structure(f1), ContentV::Structure(f2)) => flat_verdict(f1, f2),
            _ => None,
        }
    }
}

/// When the shallow table decides a pair, an outcome meeting the
/// dispatcher's contract agrees with it.
pub proof fn lemma_verdict_sound(pre: Subs, post: Subs, a: Variable, b: Variable, ok: bool)
    requires
        unify_outcome_ok(pre, post, a, b, ok),
        !pre.equiv(a, b),
    ensures
        (shallow_verdict(pre.content_at(a), pre.content_at(b)) matches Some(v) ==> ok == v),
{
}

/// The shallow table is symmetric away from aliases: among flex, rigid,
/// structure and error contents, whenever it decides a pair it decides the
/// swapped pair the same way. (An alias against a rigid variable is decided
/// asymmetrically by design: the alias side defers to its expansion.)
pub proof fn lemma_shallow_symmetry(c1: ContentV, c2: ContentV)
    requires
        !(c1 is Alias),
        !(c2 is Alias),
    ensures
        (shallow_verdict(c1, c2) matches Some(v) ==> shallow_verdict(c2, c1) == Some(v)),
{
    match (c1, c2) {
        (ContentV::Structure(f1), ContentV::Structure(f2)) => {
            lemma_flat_verdict_symmetric(f1, f2);
        },
        _ => {},
    }
}

/// Symmetry of success, in the shallow fragment: starting from one store, a
/// unification of `a` with `b` and one of `b` with `a` whose outcomes both
/// meet the unifier's contract succeed or fail alike, provided neither
/// content is an alias and the shallow table decides the pair.
pub proof fn lemma_unify_shallow_symmetry(
    pre: Subs,
    post_ab: Subs,
    post_ba: Subs,
    a: Variable,
    b: Variable,
    ok_ab: bool,
    ok_ba: bool,
)
    requires
        unify_outcome_ok(pre, post_ab, a, b, ok_ab),
        unify_outcome_ok(pre, post_ba, b, a, ok_ba),
        !(pre.content_at(a) is Alias),
        !(pre.content_at(b) is Alias),
        shallow_verdict(pre.content_at(a), pre.content_at(b)) is Some,
    ensures
        ok_ab == ok_ba,
{
    if pre.equiv(a, b) {
        assert(pre.equiv(b, a));
    } else {
        lemma_verdict_sound(pre, post_ab, a, b, ok_ab);
        lemma_verdict_sound(pre, post_ba, b, a, ok_ba);
        lemma_shallow_symmetry(pre.content_at(a), pre.content_at(b));
    }
}

/// An alias is transparent to its expansion against a structure or a rigid
/// variable: the outcome is the expansion's own, so whenever the shallow
/// table decides the expansion against the other content, it decides the
/// alias the same way; an expansion already equivalent to the other side
/// succeeds outright.
pub open spec fn alias_expansion_ok(pre: Subs, c1: ContentV, b: Variable, ok: bool) -> bool {
    c1 matches ContentV::Alias(s1, _args1, real1) ==> {
        let c2 = pre.content_at(b);
        &&& ((c2 is Structure || c2 is RigidVar) && pre.equiv(real1, b) ==> ok)
        &&& ((c2 is Structure || c2 is RigidVar) && !pre.equiv(real1, b) ==> (shallow_verdict(
            pre.content_at(real1),
            c2,
        ) matches Some(v) ==> ok == v))
        &&& (c2 matches ContentV::Alias(s2, _args2, real2) ==> (s1 != s2 ==> {
            &&& (pre.equiv(real1, real2) ==> ok)
            &&& (!pre.equiv(real1, real2) ==> (shallow_verdict(
                pre.content_at(real1),
                pre.content_at(real2),
            ) matches Some(v) ==> ok == v))
        }))
    }
}

/// A record whose fields are all optional subsumes the empty record when its
/// extension is still unsolved: the row closes and unification succeeds.
pub open spec fn record_vs_empty_ok(pre: Subs, a: Variable, b: Variable, ok: bool) -> bool {
    &&& (pre.content_at(a) matches ContentV::Structure(FlatTypeV::Record(fields, ext)) ==> (
    pre.content_at(b) == ContentV::Structure(FlatTypeV::EmptyRecord) && only_optional(fields)
        && pre.content_at(ext) is FlexVar ==> ok))
    &&& (pre.content_at(b) matches ContentV::Structure(FlatTypeV::Record(fields, ext)) ==> (
    pre.content_at(a) == ContentV::Structure(FlatTypeV::EmptyRecord) && only_optional(fields)
        && pre.content_at(ext) is FlexVar ==> ok))
}

/// A structure is transparent to the other side's alias: the outcome is that
/// of unifying the structure's variable with the alias's expansion, so
/// whenever the shallow table decides that pair, it decides this one.
pub open spec fn structure_vs_alias_ok(pre: Subs, a: Variable, b: Variable, ok: bool) -> bool {
    pre.content_at(a) is Structure ==> (pre.content_at(b) matches ContentV::Alias(
        _s2,
        _args2,
        real2,
    ) ==> {
        &&& (pre.equiv(a, real2) ==> ok)
        &&& (!pre.equiv(a, real2) ==> (shallow_verdict(
            pre.content_at(a),
            pre.content_at(real2),
        ) matches Some(v) ==> ok == v))
    })
}

/// Two tag rows with no shared tag, the left one open in a flex extension
/// and the right one closed: the right row cannot absorb the left tags, so
/// unification fails, and the rollback leaves the open extension untouched.
spec fn disjoint_closed_rows(pre: Subs, rec1: &TagUnionStructure, rec2: &TagUnionStructure)
    -> bool {
    &&& !(rec1.tags@.dom() =~= Set::<TagName>::empty())
    &&& !(rec2.tags@.dom() =~= Set::<TagName>::empty())
    &&& (forall|k: TagName| #[trigger] rec1.tags@.dom().contains(k)
        ==> !rec2.tags@.dom().contains(k))
    &&& pre.content_at(rec1.ext) is FlexVar
    &&& pre.content_at(rec2.ext) == ContentV::Structure(FlatTypeV::EmptyTagUnion)
}

/// Two tag rows with no shared tag, the left open in a flex extension and
/// the right closed by the empty tag union: such a pair cannot unify.
pub open spec fn disjoint_closed_tag_rows(pre: Subs, f1: FlatTypeV, f2: FlatTypeV) -> bool {
    match (f1, f2) {
        (FlatTypeV::TagUnion(t1, e1), FlatTypeV::TagUnion(t2, e2)) => {
            &&& !(t1.dom() =~= Set::<TagName>::empty())
            &&& !(t2.dom() =~= Set::<TagName>::empty())
            &&& (forall|k: TagName| #[trigger] t1.dom().contains(k) ==> !t2.dom().contains(k))
            &&& pre.content_at(e1) is FlexVar
            &&& pre.content_at(e2) == ContentV::Structure(FlatTypeV::EmptyTagUnion)
        },
        _ => false,
    }
}

/// Components decide function and application pairs: matching heads whose
/// argument, closure and return variables are already equivalent must
/// succeed, and a first argument pair that the shallow table rejects must
/// fail.
pub open spec fn components_outcome_ok(pre: Subs, c1: ContentV, c2: ContentV, ok: bool) -> bool {
    &&& (c1 matches ContentV::Structure(FlatTypeV::Func(a1, cl1, r1)) ==> (c2
        matches ContentV::Structure(FlatTypeV::Func(a2, cl2, r2)) ==> {
        &&& (a1.len() == a2.len() && vars_agree(pre, a1, a2) && pre.equiv(r1, r2) && pre.equiv(
            cl1,
            cl2,
        ) ==> ok)
        &&& (a1.len() == a2.len() && a1.len() > 0 && !pre.equiv(a1[0], a2[0]) && shallow_verdict(
            pre.content_at(a1[0]),
            pre.content_at(a2[0]),
        ) == Some(false) ==> !ok)
    }))
    &&& (c1 matches ContentV::Structure(FlatTypeV::Apply(s1, a1)) ==> (c2
        matches ContentV::Structure(FlatTypeV::Apply(s2, a2)) ==> {
        &&& (s1 == s2 && vars_agree(pre, a1, a2) ==> ok)
        &&& (s1 == s2 && a1.len() > 0 && a2.len() > 0 && !pre.equiv(a1[0], a2[0])
            && shallow_verdict(pre.content_at(a1[0]), pre.content_at(a2[0])) == Some(false)
            ==> !ok)
    }))
}

// ---------------------------------------------------------------------------
// Merging and allocation.
// ---------------------------------------------------------------------------

/// Links the two context variables and installs the given content with the
/// smaller rank and cleared mark and copy. Always succeeds.
pub fn merge(subs: &mut Subs, ctx: &Context, content: Content) -> (out: Outcome)
    requires
        old(subs).wf(),
        ctx.first_spec() < old(subs).n(),
        ctx.second_spec() < old(subs).n(),
        content_ok(content@, old(subs).n()),
        content_wf(&content),
    ensures
        final(subs).wf(),
        final(subs).n() == old(subs).n(),
        out@.len() == 0,
        final(subs).equiv(ctx.first_spec(), ctx.second_spec()),
        final(subs).desc_at(ctx.first_spec()) == (DescriptorV {
            content: content@,
            rank: ctx.min_rank(),
            mark: MARK_NONE,
            copy: None::<Variable>,
        }),
        forall|v: Variable| v < old(subs).n() && (old(subs).equiv(v, ctx.first_spec()) || old(
            subs,
        ).equiv(v, ctx.second_spec())) ==> #[trigger] final(subs).desc_at(v) == final(subs).desc_at(
            ctx.first_spec(),
        ) && final(subs).equiv(v, ctx.first_spec()),
        forall|v: Variable| v < old(subs).n() && !old(subs).equiv(v, ctx.first_spec()) && !old(
            subs,
        ).equiv(v, ctx.second_spec()) ==> #[trigger] final(subs).desc_at(v) == old(subs).desc_at(v)
            && final(subs).root_spec(v) == old(subs).root_spec(v),
{
    let rank = if ctx.first_desc.rank <= ctx.second_desc.rank {
        ctx.first_desc.rank
    } else {
        ctx.second_desc.rank
    };
    let desc = Descriptor { content, rank, mark: MARK_NONE, copy: None };
    subs.union(ctx.first, ctx.second, desc);
    Vec::new()
}

/// Allocates a fresh variable with the descriptor and pushes it into the pool.
fn register(subs: &mut Subs, desc: Descriptor, pool: &mut Pool) -> (var: Variable)
    requires
        old(subs).wf(),
        content_ok(desc.content@, old(subs).n() + 1),
        content_wf(&desc.content),
    ensures
        final(subs).wf(),
        final(subs).n() == old(subs).n() + 1,
        var as int == old(subs).n(),
        final(pool)@ == old(pool)@.push(var),
        final(subs).desc_at(var) == desc@,
        final(subs).root_spec(var) == var as int,
        forall|w: Variable| w < old(subs).n() ==> #[trigger] final(subs).root_spec(w) == old(
            subs,
        ).root_spec(w) && final(subs).desc_at(w) == old(subs).desc_at(w),
{
    let var = subs.fresh(desc);
    pool.push(var);
    var
}

/// Allocates a fresh variable carrying the content, at the merged rank.
fn fresh(subs: &mut Subs, pool: &mut Pool, ctx: &Context, content: Content) -> (var: Variable)
    requires
        old(subs).wf(),
        content_ok(content@, old(subs).n() + 1),
        content_wf(&content),
    ensures
        final(subs).wf(),
        final(subs).n() == old(subs).n() + 1,
        var as int == old(subs).n(),
        final(pool)@ == old(pool)@.push(var),
        final(subs).desc_at(var) == (DescriptorV {
            content: content@,
            rank: ctx.min_rank(),
            mark: MARK_NONE,
            copy: None::<Variable>,
        }),
        final(subs).root_spec(var) == var as int,
        forall|w: Variable| w < old(subs).n() ==> #[trigger] final(subs).root_spec(w) == old(
            subs,
        ).root_spec(w) && final(subs).desc_at(w) == old(subs).desc_at(w),
{
    let rank = if ctx.first_desc.rank <= ctx.second_desc.rank {
        ctx.first_desc.rank
    } else {
        ctx.second_desc.rank
    };
    register(subs, Descriptor { content, rank, mark: MARK_NONE, copy: None }, pool)
}

// ---------------------------------------------------------------------------
// The dispatcher and the shallow cases.
// ---------------------------------------------------------------------------

/// Unifies a flex variable with the other content: the other side wins,
/// except that a name hint is kept when both are flex and only the left one
/// is named.
fn unify_flex(subs: &mut Subs, ctx: &Context, opt_name: &Option<Lowercase>, other: &Content) -> (out:
    Outcome)
    requires
        old(subs).wf(),
        ctx.first_spec() < old(subs).n(),
        ctx.second_spec() < old(subs).n(),
        content_ok(other@, old(subs).n()),
        content_wf(other),
    ensures
        final(subs).wf(),
        final(subs).n() == old(subs).n(),
        out@.len() == 0,
        final(subs).equiv(ctx.first_spec(), ctx.second_spec()),
        final(subs).content_at(ctx.first_spec()) == (if other@ == ContentV::FlexVar(
            None::<Lowercase>,
        ) {
            ContentV::FlexVar(*opt_name)
        } else {
            other@
        }),
        others_untouched(*old(subs), *final(subs), ctx.first_spec(), ctx.second_spec()),
{
    match other {
        Content::FlexVar(None) => merge(subs, ctx, Content::FlexVar(*opt_name)),
        Content::FlexVar(Some(_)) | Content::RigidVar(_) | Content::Structure(_)
            | Content::Alias(_, _, _) => merge(subs, ctx, other.clone()),
        Content::Error => merge(subs, ctx, Content::Error),
    }
}

/// Unifies a rigid variable with the other content: rigid wins against flex,
/// `Error` propagates, and anything else is a mismatch.
fn unify_rigid(subs: &mut Subs, ctx: &Context, name: &Lowercase, other: &Content) -> (out: Outcome)
    requires
        old(subs).wf(),
        ctx.first_spec() < old(subs).n(),
        ctx.second_spec() < old(subs).n(),
    ensures
        final(subs).wf(),
        final(subs).n() == old(subs).n(),
        other@ is FlexVar ==> out@.len() == 0 && final(subs).equiv(
            ctx.first_spec(),
            ctx.second_spec(),
        ) && final(subs).content_at(ctx.first_spec()) == ContentV::RigidVar(*name)
            && others_untouched(*old(subs), *final(subs), ctx.first_spec(), ctx.second_spec()),
        other@ is Error ==> out@.len() == 0 && final(subs).equiv(
            ctx.first_spec(),
            ctx.second_spec(),
        ) && final(subs).content_at(ctx.first_spec()) == ContentV::Error
            && others_untouched(*old(subs), *final(subs), ctx.first_spec(), ctx.second_spec()),
        (other@ is RigidVar || other@ is Structure || other@ is Alias) ==> out@.len() > 0
            && final(subs)@ == old(subs)@,
{
    match other {
        Content::FlexVar(_) => merge(subs, ctx, Content::RigidVar(*name)),
        Content::RigidVar(_) | Content::Structure(_) | Content::Alias(_, _, _) => {
            // A rigid variable only unifies with flex, even under equal names.
            vec![Mismatch::TypeMismatch]
        },
        Content::Error => merge(subs, ctx, Content::Error),
    }
}

/// Dispatches on the first content, routing to the specialised unifier.
fn unify_context(subs: &mut Subs, pool: &mut Pool, ctx: Context, fuel: u64) -> (out: Outcome)
    requires
        old(subs).wf(),
        fuel >= 1,
        ctx.first_spec() < old(subs).n(),
        ctx.second_spec() < old(subs).n(),
        content_ok(ctx.first_desc_spec().content, old(subs).n()),
        content_ok(ctx.second_desc_spec().content, old(subs).n()),
        content_wf(&ctx.first_desc.content),
        content_wf(&ctx.second_desc.content),
    ensures
        final(subs).wf(),
        old(subs).n() <= final(subs).n(),
        pool_lower_ok(old(pool)@, final(pool)@, old(subs).n()),
        pool_upper_ok(old(pool)@, final(pool)@, final(subs).n()),
        ctx_outcome_ok(
            *old(subs),
            *final(subs),
            ctx.first_spec(),
            ctx.second_spec(),
            ctx.first_desc_spec().content,
            ctx.second_desc_spec().content,
            out@.len() == 0,
        ),
        (fuel >= 2 && ctx.second_desc_spec().content == old(subs).content_at(ctx.second_spec())
            ==> alias_expansion_ok(
            *old(subs),
            ctx.first_desc_spec().content,
            ctx.second_spec(),
            out@.len() == 0,
        )),
        (fuel >= 2 && ctx.first_desc_spec().content == old(subs).content_at(ctx.first_spec())
            && ctx.second_desc_spec().content == old(subs).content_at(ctx.second_spec())
            ==> record_vs_empty_ok(
            *old(subs),
            ctx.first_spec(),
            ctx.second_spec(),
            out@.len() == 0,
        )),
        fuel >= 2 ==> components_outcome_ok(
            *old(subs),
            ctx.first_desc_spec().content,
            ctx.second_desc_spec().content,
            out@.len() == 0,
        ),
        (fuel >= 2 && (ctx.first_desc_spec().content matches ContentV::Structure(f1) && (
        ctx.second_desc_spec().content matches ContentV::Structure(f2)
            && disjoint_closed_tag_rows(*old(subs), f1, f2)))) ==> out@.len() > 0,
        (fuel >= 2 && ctx.first_desc_spec().content == old(subs).content_at(ctx.first_spec())
            && ctx.second_desc_spec().content == old(subs).content_at(ctx.second_spec())
            ==> structure_vs_alias_ok(
            *old(subs),
            ctx.first_spec(),
            ctx.second_spec(),
            out@.len() == 0,
        )),
    decreases fuel, 9int,
{
    let ghost c1 = ctx.first_desc_spec().content;
    let ghost c2 = ctx.second_desc_spec().content;
    let out = match &ctx.first_desc.content {
        Content::FlexVar(opt_name) => {
            proof {
                assert(c1 == ContentV::FlexVar(*opt_name));
            }
            unify_flex(subs, &ctx, opt_name, &ctx.second_desc.content)
        },
        Content::RigidVar(name) => {
            proof {
                assert(c1 == ContentV::RigidVar(*name));
            }
            unify_rigid(subs, &ctx, name, &ctx.second_desc.content)
        },
        Content::Structure(flat_type) => {
            proof {
                assert(c1 == ContentV::Structure(flat_type@));
            }
            unify_structure(subs, pool, &ctx, flat_type, &ctx.second_desc.content, fuel)
        },
        Content::Alias(symbol, args, real_var) => {
            proof {
                assert(c1 == ContentV::Alias(*symbol, args@, *real_var));
            }
            unify_alias(subs, pool, &ctx, *symbol, args, *real_var, fuel)
        },
        Content::Error => {
            proof {
                assert(c1 == ContentV::Error);
            }
            // Error propagates: whatever it is compared with does not matter.
            merge(subs, &ctx, Content::Error)
        },
    };
    out
}

/// Unifies an alias with the other content: the alias head wins against
/// flex, same-symbol aliases unify their arguments, and anything structural
/// defers to the alias's expansion.
fn unify_alias(
    subs: &mut Subs,
    pool: &mut Pool,
    ctx: &Context,
    symbol: Symbol,
    args: &Vec<(Lowercase, Variable)>,
    real_var: Variable,
    fuel: u64,
) -> (out: Outcome)
    requires
        old(subs).wf(),
        fuel >= 1,
        ctx.first_spec() < old(subs).n(),
        ctx.second_spec() < old(subs).n(),
        alias_args_ok(args@, old(subs).n()),
        real_var < old(subs).n(),
        content_ok(ctx.second_desc_spec().content, old(subs).n()),
        content_wf(&ctx.second_desc.content),
    ensures
        final(subs).wf(),
        old(subs).n() <= final(subs).n(),
        pool_lower_ok(old(pool)@, final(pool)@, old(subs).n()),
        pool_upper_ok(old(pool)@, final(pool)@, final(subs).n()),
        ctx.second_desc_spec().content is FlexVar ==> out@.len() == 0 && final(subs).equiv(
            ctx.first_spec(),
            ctx.second_spec(),
        ) && final(subs).content_at(ctx.first_spec()) == ContentV::Alias(symbol, args@, real_var)
            && others_untouched(*old(subs), *final(subs), ctx.first_spec(), ctx.second_spec()),
        ctx.second_desc_spec().content is Error ==> out@.len() == 0 && final(subs).equiv(
            ctx.first_spec(),
            ctx.second_spec(),
        ) && final(subs).content_at(ctx.first_spec()) == ContentV::Error
            && others_untouched(*old(subs), *final(subs), ctx.first_spec(), ctx.second_spec()),
        (ctx.second_desc_spec().content matches ContentV::Alias(s2, args2, _r2) ==> {
            &&& (symbol == s2 && args@.len() != args2.len() ==> out@.len() > 0)
            &&& (symbol == s2 && out@.len() == 0 ==> final(subs).equiv(
                ctx.first_spec(),
                ctx.second_spec(),
            ) && final(subs).content_at(ctx.first_spec()) == ctx.second_desc_spec().content)
            &&& (symbol == s2 && args@.len() == args2.len() && (forall|i: int|
                0 <= i < args@.len() ==> old(subs).equiv(
                    (#[trigger] args@[i]).1,
                    (args2[i]).1,
                )) ==> out@.len() == 0)
        }),
        (fuel >= 2 && ctx.second_desc_spec().content == old(subs).content_at(ctx.second_spec())
            ==> alias_expansion_ok(
            *old(subs),
            ContentV::Alias(symbol, args@, real_var),
            ctx.second_spec(),
            out@.len() == 0,
        )),
    decreases fuel, 8int,
{
    let ghost c2 = ctx.second_desc_spec().content;
    match &ctx.second_desc.content {
        Content::FlexVar(_) => {
            // The alias wins: its head is kept for diagnostics.
            merge(subs, ctx, Content::Alias(symbol, clone_alias_args(args), real_var))
        },
        Content::RigidVar(_) => {
            let out = unify_pool_help(subs, pool, real_var, ctx.second, fuel - 1);
            proof {
                if fuel >= 2 && !old(subs).equiv(real_var, ctx.second) {
                    lemma_verdict_sound(
                        *old(subs),
                        *subs,
                        real_var,
                        ctx.second,
                        out@.len() == 0,
                    );
                }
            }
            out
        },
        Content::Alias(other_symbol, other_args, other_real_var) => {
            proof {
                assert(c2 == ContentV::Alias(*other_symbol, other_args@, *other_real_var));
            }
            if symbol == *other_symbol {
                if args.len() == other_args.len() {
                    let mut problems: Vec<Mismatch> = Vec::new();
                    let n_args = args.len();
                    let mut i: usize = 0;
                    while i < n_args
                        invariant
                            fuel >= 1,
                            subs.wf(),
                            old(subs).n() <= subs.n(),
                            i <= n_args,
                            n_args == args@.len(),
                            n_args == other_args@.len(),
                            alias_args_ok(args@, old(subs).n()),
                            alias_args_ok(other_args@, old(subs).n()),
                            (forall|j: int|
                                0 <= j < args@.len() ==> old(subs).equiv(
                                    (#[trigger] args@[j]).1,
                                    (other_args@[j]).1,
                                )) ==> problems@.len() == 0 && subs@ == old(subs)@,
                            pool_lower_ok(old(pool)@, pool@, old(subs).n()),
                            pool_upper_ok(old(pool)@, pool@, subs.n()),
                        decreases n_args - i,
                    {
                        let ghost pool_mid = pool@;
                        let ghost subs_mid = *subs;
                        let l_var = args[i].1;
                        let r_var = other_args[i].1;
                        let mut more = unify_pool_help(subs, pool, l_var, r_var, fuel - 1);
                        proof {
                            lemma_pool_compose(
                                old(pool)@,
                                pool_mid,
                                pool@,
                                old(subs).n(),
                                subs_mid.n(),
                                subs.n(),
                            );
                        }
                        problems.append(&mut more);
                        i = i + 1;
                    }
                    proof {
                        match c2 {
                            ContentV::Alias(_s2x, args2x, _r2x) => {
                                if args@.len() == args2x.len() && (forall|i: int|
                                    0 <= i < args@.len() ==> old(subs).equiv(
                                        (#[trigger] args@[i]).1,
                                        (args2x[i]).1,
                                    )) {
                                    assert(args2x == other_args@);
                                    assert forall|j: int| 0 <= j < args@.len() implies old(
                                        subs,
                                    ).equiv((#[trigger] args@[j]).1, (other_args@[j]).1) by {
                                        assert(old(subs).equiv((args@[j]).1, (args2x[j]).1));
                                    }
                                }
                            },
                            _ => {},
                        }
                    }
                    let ghost pool_mid = pool@;
                    let ghost subs_mid = *subs;
                    let mut merged = merge(subs, ctx, ctx.second_desc.content.clone());
                    proof {
                        lemma_pool_compose(
                            old(pool)@,
                            pool_mid,
                            pool@,
                            old(subs).n(),
                            subs_mid.n(),
                            subs.n(),
                        );
                    }
                    problems.append(&mut merged);
                    problems
                } else {
                    vec![Mismatch::TypeMismatch]
                }
            } else {
                let out = unify_pool_help(subs, pool, real_var, *other_real_var, fuel - 1);
                proof {
                    if fuel >= 2 && !old(subs).equiv(real_var, *other_real_var) {
                        lemma_verdict_sound(
                            *old(subs),
                            *subs,
                            real_var,
                            *other_real_var,
                            out@.len() == 0,
                        );
                    }
                }
                out
            }
        },
        Content::Structure(_) => {
            let out = unify_pool_help(subs, pool, real_var, ctx.second, fuel - 1);
            proof {
                if fuel >= 2 && !old(subs).equiv(real_var, ctx.second) {
                    lemma_verdict_sound(
                        *old(subs),
                        *subs,
                        real_var,
                        ctx.second,
                        out@.len() == 0,
                    );
                }
            }
            out
        },
        Content::Error => merge(subs, ctx, Content::Error),
    }
}

/// Unifies a structure with the other content: structure wins against flex,
/// never unifies with rigid, recurses through an alias, and pairs of
/// structures go to the flat-type unifier.
fn unify_structure(
    subs: &mut Subs,
    pool: &mut Pool,
    ctx: &Context,
    flat_type: &FlatType,
    other: &Content,
    fuel: u64,
) -> (out: Outcome)
    requires
        old(subs).wf(),
        fuel >= 1,
        ctx.first_spec() < old(subs).n(),
        ctx.second_spec() < old(subs).n(),
        flat_ok(flat_type@, old(subs).n()),
        flat_wf(flat_type),
        content_ok(other@, old(subs).n()),
        content_wf(other),
    ensures
        final(subs).wf(),
        old(subs).n() <= final(subs).n(),
        pool_lower_ok(old(pool)@, final(pool)@, old(subs).n()),
        pool_upper_ok(old(pool)@, final(pool)@, final(subs).n()),
        other@ is FlexVar ==> out@.len() == 0 && final(subs).equiv(
            ctx.first_spec(),
            ctx.second_spec(),
        ) && final(subs).content_at(ctx.first_spec()) == ContentV::Structure(flat_type@)
            && others_untouched(*old(subs), *final(subs), ctx.first_spec(), ctx.second_spec()),
        other@ is RigidVar ==> out@.len() > 0 && final(subs)@ == old(subs)@,
        other@ is Error ==> out@.len() == 0 && final(subs).equiv(
            ctx.first_spec(),
            ctx.second_spec(),
        ) && final(subs).content_at(ctx.first_spec()) == ContentV::Error
            && others_untouched(*old(subs), *final(subs), ctx.first_spec(), ctx.second_spec()),
        (fuel >= 2 && old(subs).content_at(ctx.first_spec()) == ContentV::Structure(flat_type@)
            && old(subs).content_at(ctx.second_spec()) == other@ ==> record_vs_empty_ok(
            *old(subs),
            ctx.first_spec(),
            ctx.second_spec(),
            out@.len() == 0,
        )),
        fuel >= 2 ==> components_outcome_ok(
            *old(subs),
            ContentV::Structure(flat_type@),
            other@,
            out@.len() == 0,
        ),
        (fuel >= 2 && (other@ matches ContentV::Structure(f2) && disjoint_closed_tag_rows(
            *old(subs),
            flat_type@,
            f2,
        ))) ==> out@.len() > 0,
        (fuel >= 2 && old(subs).content_at(ctx.first_spec()) == ContentV::Structure(flat_type@)
            && old(subs).content_at(ctx.second_spec()) == other@ ==> structure_vs_alias_ok(
            *old(subs),
            ctx.first_spec(),
            ctx.second_spec(),
            out@.len() == 0,
        )),
        (other@ matches ContentV::Structure(f2) ==> {
            &&& (flat_verdict(flat_type@, f2) matches Some(v) ==> (out@.len() == 0) == v)
            &&& (flat_type@ is EmptyRecord && f2 is EmptyRecord ==> out@.len() == 0
                && final(subs).equiv(ctx.first_spec(), ctx.second_spec())
                && final(subs).content_at(ctx.first_spec())
                == ContentV::Structure(FlatTypeV::EmptyRecord))
            &&& (flat_type@ is EmptyTagUnion && f2 is EmptyTagUnion ==> out@.len() == 0
                && final(subs).equiv(ctx.first_spec(), ctx.second_spec())
                && final(subs).content_at(ctx.first_spec())
                == ContentV::Structure(FlatTypeV::EmptyTagUnion))
            &&& (flat_type@ is Apply ==> (f2 matches FlatTypeV::Apply(s2, a2) ==> (out@.len() == 0
                ==> final(subs).equiv(ctx.first_spec(), ctx.second_spec())
                && final(subs).content_at(ctx.first_spec()) == ContentV::Structure(
                FlatTypeV::Apply(s2, a2),
            ))))
            &&& (flat_type@ is Func ==> (f2 matches FlatTypeV::Func(a2, c2v, r2) ==> (out@.len()
                == 0 ==> final(subs).equiv(ctx.first_spec(), ctx.second_spec())
                && final(subs).content_at(ctx.first_spec()) == ContentV::Structure(
                FlatTypeV::Func(a2, c2v, r2),
            ))))
            &&& (flat_type@ is Boolean && f2 is Boolean && out@.len() == 0 ==> final(subs).equiv(
                ctx.first_spec(),
                ctx.second_spec(),
            ) && (final(subs).content_at(ctx.first_spec()) matches ContentV::Structure(
                FlatTypeV::Boolean(_),
            )))
            &&& (flat_type@ matches FlatTypeV::Boolean(b1) ==> (f2 matches FlatTypeV::Boolean(b2)
                ==> {
                &&& (simplify_bool_spec(*old(subs), b1) is Shared && simplify_bool_spec(
                    *old(subs),
                    b2,
                ) is Shared ==> out@.len() == 0 && final(subs).equiv(
                    ctx.first_spec(),
                    ctx.second_spec(),
                ) && final(subs).content_at(ctx.first_spec()) == ContentV::Structure(
                    FlatTypeV::Boolean(b1),
                ))
                &&& ((simplify_bool_spec(*old(subs), b1) is Shared && simplify_bool_spec(
                    *old(subs),
                    b2,
                ) is Container) || (simplify_bool_spec(*old(subs), b1) is Container
                    && simplify_bool_spec(*old(subs), b2) is Shared) ==> final(subs).equiv(
                    ctx.first_spec(),
                    ctx.second_spec(),
                ) && final(subs).content_at(ctx.first_spec()) == ContentV::Structure(
                    FlatTypeV::Boolean(BoolV::Shared),
                ))
                &&& (simplify_bool_spec(*old(subs), b1) matches BoolV::Container(cv1, _m1) ==> (
                simplify_bool_spec(*old(subs), b2) is Container ==> (final(subs).content_at(
                    ctx.first_spec(),
                ) matches ContentV::Structure(FlatTypeV::Boolean(BoolV::Container(cc, _mm))) && cc
                    == cv1)))
            }))
            &&& (flat_type@ matches FlatTypeV::Record(fs1, _x1) ==> (f2 matches FlatTypeV::Record(
                fs2,
                _x2,
            ) ==> {
                &&& ((exists|k: Lowercase|
                    #![trigger fs1[k], fs2[k]]
                    fs1.dom().contains(k) && fs2.dom().contains(k) && spec_combine_fields(
                        fs1[k],
                        fs2[k],
                    ) is None) ==> out@.len() > 0)
                &&& (out@.len() == 0 ==> final(subs).equiv(ctx.first_spec(), ctx.second_spec()) && (
                final(subs).content_at(ctx.first_spec()) matches ContentV::Structure(
                    FlatTypeV::Record(m, _),
                ) && forall|k: Lowercase|
                    fs1.dom().contains(k) && #[trigger] fs2.dom().contains(k) ==> m.dom().contains(
                        k,
                    )))
            }))
            &&& (flat_type@ matches FlatTypeV::TagUnion(ts1, _y1) ==> (f2
                matches FlatTypeV::TagUnion(ts2, _y2) ==> {
                &&& ((exists|k: TagName|
                    #![trigger ts1[k], ts2[k]]
                    ts1.dom().contains(k) && ts2.dom().contains(k) && ts1[k].len() != ts2[k].len())
                    ==> out@.len() > 0)
                &&& (out@.len() == 0 ==> final(subs).equiv(ctx.first_spec(), ctx.second_spec()) && (
                tag_row_of(final(subs).content_at(ctx.first_spec())) matches Some(m) && forall|
                    k: TagName,
                |
                    ts1.dom().contains(k) && #[trigger] ts2.dom().contains(k) ==> m.dom().contains(
                        k,
                    )))
            }))
            &&& ((flat_type@ is RecursiveTagUnion || f2 is RecursiveTagUnion) && out@.len() == 0
                ==> final(subs).equiv(ctx.first_spec(), ctx.second_spec())
                && is_recursive_tag_union_structure(final(subs).content_at(ctx.first_spec())))
            &&& (flat_type@ matches FlatTypeV::RecursiveTagUnion(r1, _t1, _e1) ==> (out@.len() == 0
                ==> (final(subs).content_at(ctx.first_spec()) matches ContentV::Structure(
                FlatTypeV::RecursiveTagUnion(rec, _, _),
            ) && rec == r1)))
            &&& (flat_type@ is TagUnion ==> (f2 matches FlatTypeV::RecursiveTagUnion(
                r2,
                _t2,
                _e2,
            ) ==> (out@.len() == 0 ==> (final(subs).content_at(ctx.first_spec())
                matches ContentV::Structure(FlatTypeV::RecursiveTagUnion(rec, _, _)) && rec
                == r2))))
        }),
    decreases fuel, 8int,
{
    match other {
        Content::FlexVar(_) => {
            // If the other side is flex, the structure wins.
            merge(subs, ctx, Content::Structure(flat_type.clone()))
        },
        Content::RigidVar(_) => {
            // A rigid variable can only unify with flex.
            vec![Mismatch::TypeMismatch]
        },
        Content::Structure(other_flat_type) => {
            proof {
                assert(other@ == ContentV::Structure(other_flat_type@));
            }
            unify_flat_type(subs, pool, ctx, flat_type, other_flat_type, fuel)
        },
        Content::Alias(_, _, real_var) => {
            proof {
                assert(content_ok(other@, old(subs).n()));
            }
            let out = unify_pool_help(subs, pool, ctx.first, *real_var, fuel - 1);
            proof {
                if fuel >= 2 && !old(subs).equiv(ctx.first, *real_var) {
                    lemma_verdict_sound(*old(subs), *subs, ctx.first, *real_var, out@.len() == 0);
                }
            }
            out
        },
        Content::Error => merge(subs, ctx, Content::Error),
    }
}

/// Unifies two flat types by the structural case table.
fn unify_flat_type(
    subs: &mut Subs,
    pool: &mut Pool,
    ctx: &Context,
    left: &FlatType,
    right: &FlatType,
    fuel: u64,
) -> (out: Outcome)
    requires
        old(subs).wf(),
        fuel >= 1,
        ctx.first_spec() < old(subs).n(),
        ctx.second_spec() < old(subs).n(),
        flat_ok(left@, old(subs).n()),
        flat_wf(left),
        flat_ok(right@, old(subs).n()),
        flat_wf(right),
    ensures
        final(subs).wf(),
        old(subs).n() <= final(subs).n(),
        pool_lower_ok(old(pool)@, final(pool)@, old(subs).n()),
        pool_upper_ok(old(pool)@, final(pool)@, final(subs).n()),
        (flat_verdict(left@, right@) matches Some(v) ==> (out@.len() == 0) == v),
        (left@ is EmptyRecord && right@ is EmptyRecord ==> out@.len() == 0 && final(subs).equiv(
            ctx.first_spec(),
            ctx.second_spec(),
        ) && final(subs).content_at(ctx.first_spec()) == ContentV::Structure(
            FlatTypeV::EmptyRecord,
        )),
        (left@ is EmptyTagUnion && right@ is EmptyTagUnion ==> out@.len() == 0 && final(subs).equiv(
            ctx.first_spec(),
            ctx.second_spec(),
        ) && final(subs).content_at(ctx.first_spec()) == ContentV::Structure(
            FlatTypeV::EmptyTagUnion,
        )),
        (left@ is Record && right@ is Record && out@.len() == 0 ==> final(subs).equiv(
            ctx.first_spec(),
            ctx.second_spec(),
        ) && is_record_structure(final(subs).content_at(ctx.first_spec()))),
        (left@ is TagUnion && right@ is TagUnion && out@.len() == 0 ==> final(subs).equiv(
            ctx.first_spec(),
            ctx.second_spec(),
        ) && is_tag_union_structure(final(subs).content_at(ctx.first_spec()))),
        ((left@ is RecursiveTagUnion || right@ is RecursiveTagUnion) && out@.len() == 0
            ==> final(subs).equiv(ctx.first_spec(), ctx.second_spec())
            && is_recursive_tag_union_structure(final(subs).content_at(ctx.first_spec()))),
        (left@ matches FlatTypeV::Record(fs1, _x1) ==> (right@ matches FlatTypeV::Record(
            fs2,
            _x2,
        ) ==> {
            &&& ((exists|k: Lowercase|
                #![trigger fs1[k], fs2[k]]
                fs1.dom().contains(k) && fs2.dom().contains(k) && spec_combine_fields(
                    fs1[k],
                    fs2[k],
                ) is None) ==> out@.len() > 0)
            &&& (out@.len() == 0 ==> (final(subs).content_at(ctx.first_spec())
                matches ContentV::Structure(FlatTypeV::Record(m, _)) && forall|k: Lowercase|
                fs1.dom().contains(k) && #[trigger] fs2.dom().contains(k) ==> m.dom().contains(k)))
        })),
        (left@ matches FlatTypeV::TagUnion(ts1, _y1) ==> (right@ matches FlatTypeV::TagUnion(
            ts2,
            _y2,
        ) ==> {
            &&& ((exists|k: TagName|
                #![trigger ts1[k], ts2[k]]
                ts1.dom().contains(k) && ts2.dom().contains(k) && ts1[k].len() != ts2[k].len())
                ==> out@.len() > 0)
            &&& (out@.len() == 0 ==> (tag_row_of(final(subs).content_at(ctx.first_spec()))
                matches Some(m) && forall|k: TagName|
                ts1.dom().contains(k) && #[trigger] ts2.dom().contains(k) ==> m.dom().contains(k)))
        })),
        (left@ matches FlatTypeV::Apply(_s1, _a1) ==> (right@ matches FlatTypeV::Apply(s2, a2)
            ==> (out@.len() == 0 ==> final(subs).equiv(ctx.first_spec(), ctx.second_spec())
            && final(subs).content_at(ctx.first_spec()) == ContentV::Structure(
            FlatTypeV::Apply(s2, a2),
        )))),
        (left@ matches FlatTypeV::Func(_a1, _c1, _r1) ==> (right@ matches FlatTypeV::Func(
            a2,
            c2,
            r2,
        ) ==> (out@.len() == 0 ==> final(subs).equiv(ctx.first_spec(), ctx.second_spec())
            && final(subs).content_at(ctx.first_spec()) == ContentV::Structure(
            FlatTypeV::Func(a2, c2, r2),
        )))),
        (left@ is Boolean && right@ is Boolean && out@.len() == 0 ==> final(subs).equiv(
            ctx.first_spec(),
            ctx.second_spec(),
        ) && (final(subs).content_at(ctx.first_spec()) matches ContentV::Structure(
            FlatTypeV::Boolean(_),
        ))),
        (left@ matches FlatTypeV::Boolean(b1) ==> (right@ matches FlatTypeV::Boolean(b2) ==> {
            &&& (simplify_bool_spec(*old(subs), b1) is Shared && simplify_bool_spec(
                *old(subs),
                b2,
            ) is Shared ==> out@.len() == 0 && final(subs).equiv(ctx.first_spec(), ctx.second_spec())
                && final(subs).content_at(ctx.first_spec()) == ContentV::Structure(left@))
            &&& ((simplify_bool_spec(*old(subs), b1) is Shared && simplify_bool_spec(
                *old(subs),
                b2,
            ) is Container) || (simplify_bool_spec(*old(subs), b1) is Container
                && simplify_bool_spec(*old(subs), b2) is Shared) ==> final(subs).equiv(
                ctx.first_spec(),
                ctx.second_spec(),
            ) && final(subs).content_at(ctx.first_spec()) == ContentV::Structure(
                FlatTypeV::Boolean(BoolV::Shared),
            ))
            &&& (simplify_bool_spec(*old(subs), b1) matches BoolV::Container(cv1, _m1) ==> (
            simplify_bool_spec(*old(subs), b2) is Container ==> (final(subs).content_at(
                ctx.first_spec(),
            ) matches ContentV::Structure(FlatTypeV::Boolean(BoolV::Container(cc, _mm))) && cc
                == cv1)))
        })),
        (fuel >= 2 && old(subs).content_at(ctx.first_spec()) == ContentV::Structure(left@) && old(
            subs,
        ).content_at(ctx.second_spec()) == ContentV::Structure(right@) ==> record_vs_empty_ok(
            *old(subs),
            ctx.first_spec(),
            ctx.second_spec(),
            out@.len() == 0,
        )),
        (left@ matches FlatTypeV::RecursiveTagUnion(r1, _t1, _e1) ==> (out@.len() == 0
            ==> (final(subs).content_at(ctx.first_spec()) matches ContentV::Structure(
            FlatTypeV::RecursiveTagUnion(rec, _, _),
        ) && rec == r1))),
        (left@ is TagUnion ==> (right@ matches FlatTypeV::RecursiveTagUnion(r2, _t2, _e2) ==> (
        out@.len() == 0 ==> (final(subs).content_at(ctx.first_spec())
            matches ContentV::Structure(FlatTypeV::RecursiveTagUnion(rec, _, _)) && rec == r2)))),
        fuel >= 2 ==> components_outcome_ok(
            *old(subs),
            ContentV::Structure(left@),
            ContentV::Structure(right@),
            out@.len() == 0,
        ),
        (fuel >= 2 && disjoint_closed_tag_rows(*old(subs), left@, right@)) ==> out@.len() > 0,
    decreases fuel, 7int,
{
    match (left, right) {
        (FlatType::EmptyRecord, FlatType::EmptyRecord) => merge(
            subs,
            ctx,
            Content::Structure(FlatType::EmptyRecord),
        ),
        (FlatType::Record(fields, ext), FlatType::EmptyRecord) => {
            // An open record subsumes the empty record exactly when every
            // collected field is optional; the row is then closed.
            if has_only_optional_fields(fields) {
                unify_pool_help(subs, pool, *ext, ctx.second, fuel - 1)
            } else {
                vec![Mismatch::TypeMismatch]
            }
        },
        (FlatType::EmptyRecord, FlatType::Record(fields, ext)) => {
            if has_only_optional_fields(fields) {
                unify_pool_help(subs, pool, ctx.first, *ext, fuel - 1)
            } else {
                vec![Mismatch::TypeMismatch]
            }
        },
        (FlatType::Record(fields1, ext1), FlatType::Record(fields2, ext2)) => {
            let rec1 = gather_fields(subs, fields1.clone(), *ext1);
            let rec2 = gather_fields(subs, fields2.clone(), *ext2);
            proof {
                // Fields already on the two rows survive gathering unchanged,
                // so a content-level incompatibility or shared key is also a
                // gathered-level one.
                assert forall|k: Lowercase|
                    fields1@.dom().contains(k) && #[trigger] fields2@.dom().contains(
                        k,
                    ) implies rec1.fields@.dom().contains(k) && rec2.fields@.dom().contains(k)
                    && rec1.fields@[k] == fields1@[k] && rec2.fields@[k] == fields2@[k] by {}
            }
            unify_record(subs, pool, ctx, rec1, rec2, fuel)
        },
        (FlatType::EmptyTagUnion, FlatType::EmptyTagUnion) => merge(
            subs,
            ctx,
            Content::Structure(FlatType::EmptyTagUnion),
        ),
        (FlatType::TagUnion(tags, ext), FlatType::EmptyTagUnion) => {
            if tags.is_empty() {
                proof {
                    assert(tags@.dom() =~= Set::empty());
                }
                unify_pool_help(subs, pool, *ext, ctx.second, fuel - 1)
            } else {
                proof {
                    lemma_map_of_index(tags.kseq(), 0);
                    assert(!(tags@.dom() =~= Set::empty()));
                }
                vec![Mismatch::TypeMismatch]
            }
        },
        (FlatType::EmptyTagUnion, FlatType::TagUnion(tags, ext)) => {
            if tags.is_empty() {
                proof {
                    assert(tags@.dom() =~= Set::empty());
                }
                unify_pool_help(subs, pool, ctx.first, *ext, fuel - 1)
            } else {
                proof {
                    lemma_map_of_index(tags.kseq(), 0);
                    assert(!(tags@.dom() =~= Set::empty()));
                }
                vec![Mismatch::TypeMismatch]
            }
        },
        (FlatType::TagUnion(tags1, ext1), FlatType::TagUnion(tags2, ext2)) => {
            let union1 = gather_tags(subs, tags1.clone(), *ext1);
            let union2 = gather_tags(subs, tags2.clone(), *ext2);
            proof {
                assert forall|k: TagName|
                    tags1@.dom().contains(k) && #[trigger] tags2@.dom().contains(
                        k,
                    ) implies union1.tags@.dom().contains(k) && union2.tags@.dom().contains(k)
                    && union1.tags@[k] == tags1@[k] && union2.tags@[k] == tags2@[k] by {}
                if fuel >= 2 && disjoint_closed_tag_rows(*old(subs), left@, right@) {
                    // A flex or closed extension stops the gather at once, so
                    // the gathered rows are the written rows.
                    assert(union1.tags@ == tags1@ && union1.ext == *ext1);
                    assert(union2.tags@ == tags2@ && union2.ext == *ext2);
                }
            }
            unify_tag_union(subs, pool, ctx, union1, union2, (None, None), fuel)
        },
        (FlatType::RecursiveTagUnion(recursion_var, tags1, ext1), FlatType::TagUnion(
            tags2,
            ext2,
        )) => {
            // This only happens when there is a type error.
            let union1 = gather_tags(subs, tags1.clone(), *ext1);
            let union2 = gather_tags(subs, tags2.clone(), *ext2);
            unify_tag_union(subs, pool, ctx, union1, union2, (Some(*recursion_var), None), fuel)
        },
        (FlatType::TagUnion(tags1, ext1), FlatType::RecursiveTagUnion(
            recursion_var,
            tags2,
            ext2,
        )) => {
            let union1 = gather_tags(subs, tags1.clone(), *ext1);
            let union2 = gather_tags(subs, tags2.clone(), *ext2);
            unify_tag_union(subs, pool, ctx, union1, union2, (None, Some(*recursion_var)), fuel)
        },
        (FlatType::RecursiveTagUnion(rec1, tags1, ext1), FlatType::RecursiveTagUnion(
            rec2,
            tags2,
            ext2,
        )) => {
            let union1 = gather_tags(subs, tags1.clone(), *ext1);
            let union2 = gather_tags(subs, tags2.clone(), *ext2);
            unify_tag_union(subs, pool, ctx, union1, union2, (Some(*rec1), Some(*rec2)), fuel)
        },
        (FlatType::Boolean(b1), FlatType::Boolean(b2)) => {
            let sb1 = simplify_bool(subs, b1);
            let sb2 = simplify_bool(subs, b2);
            match (&sb1, &sb2) {
                (Bool::Shared, Bool::Shared) => merge(subs, ctx, Content::Structure(left.clone())),
                (Bool::Shared, Bool::Container(cvar, mvars)) => {
                    unify_bool_with_shared(subs, pool, ctx, ctx.first, *cvar, mvars, fuel)
                },
                (Bool::Container(cvar, mvars), Bool::Shared) => {
                    unify_bool_with_shared(subs, pool, ctx, ctx.second, *cvar, mvars, fuel)
                },
                (Bool::Container(cvar1, mvars1), Bool::Container(cvar2, mvars2)) => {
                    let ghost pool0 = pool@;
                    let ghost subs0 = *subs;
                    let mut outcome = unify_pool_help(subs, pool, *cvar1, *cvar2, fuel - 1);
                    // The merged member set: the roots of both sides' members,
                    // dropping any member already known to be shared.
                    let mut kept = VarSet::new();
                    let m1 = mvars1.len();
                    let mut i: usize = 0;
                    while i < m1
                        invariant
                            subs.wf(),
                            old(subs).n() <= subs.n(),
                            i <= m1,
                            m1 == mvars1.seq().len(),
                            members_ok(mvars1@, old(subs).n()),
                            kept.wf(),
                            members_ok(kept@, subs.n()),
                        decreases m1 - i,
                    {
                        let v = mvars1.var_at(i);
                        let root = subs.get_root_key(v);
                        if !var_is_shared(subs, root) {
                            kept.insert(root);
                        }
                        i = i + 1;
                    }
                    let m2 = mvars2.len();
                    let mut j: usize = 0;
                    while j < m2
                        invariant
                            subs.wf(),
                            old(subs).n() <= subs.n(),
                            j <= m2,
                            m2 == mvars2.seq().len(),
                            members_ok(mvars2@, old(subs).n()),
                            kept.wf(),
                            members_ok(kept@, subs.n()),
                        decreases m2 - j,
                    {
                        let v = mvars2.var_at(j);
                        let root = subs.get_root_key(v);
                        if !var_is_shared(subs, root) {
                            kept.insert(root);
                        }
                        j = j + 1;
                    }
                    let content = Content::Structure(FlatType::Boolean(Bool::Container(*cvar1, kept)));
                    let ghost pool1 = pool@;
                    let ghost subs1 = *subs;
                    let mut merged = merge(subs, ctx, content);
                    proof {
                        lemma_pool_compose(pool0, pool1, pool@, subs0.n(), subs1.n(), subs.n());
                    }
                    outcome.append(&mut merged);
                    outcome
                },
            }
        },
        (FlatType::Apply(l_symbol, l_args), FlatType::Apply(r_symbol, r_args)) => {
            if *l_symbol == *r_symbol {
                let ghost pool0 = pool@;
                let ghost subs0 = *subs;
                let problems = unify_zip(subs, pool, l_args, r_args, fuel);
                if problems.len() == 0 {
                    let ghost pool1 = pool@;
                    let ghost subs1 = *subs;
                    let out = merge(
                        subs,
                        ctx,
                        Content::Structure(FlatType::Apply(*r_symbol, clone_vars(r_args))),
                    );
                    proof {
                        lemma_pool_compose(pool0, pool1, pool@, subs0.n(), subs1.n(), subs.n());
                    }
                    out
                } else {
                    problems
                }
            } else {
                vec![Mismatch::TypeMismatch]
            }
        },
        (FlatType::Func(l_args, l_closure, l_ret), FlatType::Func(r_args, r_closure, r_ret)) => {
            if l_args.len() == r_args.len() {
                let ghost pool0 = pool@;
                let ghost subs0 = *subs;
                let arg_problems = unify_zip(subs, pool, l_args, r_args, fuel);
                let ghost pool1 = pool@;
                let ghost subs1 = *subs;
                let ret_problems = unify_pool_help(subs, pool, *l_ret, *r_ret, fuel - 1);
                proof {
                    lemma_pool_compose(pool0, pool1, pool@, subs0.n(), subs1.n(), subs.n());
                }
                let ghost pool2 = pool@;
                let ghost subs2 = *subs;
                let closure_problems = unify_pool_help(subs, pool, *l_closure, *r_closure, fuel - 1);
                proof {
                    lemma_pool_compose(pool0, pool2, pool@, subs0.n(), subs2.n(), subs.n());
                }
                if arg_problems.len() == 0 && closure_problems.len() == 0 && ret_problems.len()
                    == 0 {
                    let ghost pool3 = pool@;
                    let ghost subs3 = *subs;
                    let out = merge(
                        subs,
                        ctx,
                        Content::Structure(
                            FlatType::Func(clone_vars(r_args), *r_closure, *r_ret),
                        ),
                    );
                    proof {
                        lemma_pool_compose(pool0, pool3, pool@, subs0.n(), subs3.n(), subs.n());
                    }
                    out
                } else {
                    let mut problems = ret_problems;
                    let mut closure_problems = closure_problems;
                    let mut arg_problems = arg_problems;
                    problems.append(&mut closure_problems);
                    problems.append(&mut arg_problems);
                    problems
                }
            } else {
                vec![Mismatch::TypeMismatch]
            }
        },
        _ => {
            vec![Mismatch::TypeMismatch]
        },
    }
}

/// Unifies every variable of a container boolean with the already-shared
/// side, then merges both sides as `Shared`.
fn unify_bool_with_shared(
    subs: &mut Subs,
    pool: &mut Pool,
    ctx: &Context,
    shared_var: Variable,
    cvar: Variable,
    mvars: &VarSet,
    fuel: u64,
) -> (out: Outcome)
    requires
        old(subs).wf(),
        fuel >= 1,
        ctx.first_spec() < old(subs).n(),
        ctx.second_spec() < old(subs).n(),
        shared_var < old(subs).n(),
        cvar < old(subs).n(),
        members_ok(mvars@, old(subs).n()),
    ensures
        final(subs).wf(),
        old(subs).n() <= final(subs).n(),
        pool_lower_ok(old(pool)@, final(pool)@, old(subs).n()),
        pool_upper_ok(old(pool)@, final(pool)@, final(subs).n()),
        final(subs).equiv(ctx.first_spec(), ctx.second_spec()),
        final(subs).content_at(ctx.first_spec()) == ContentV::Structure(
            FlatTypeV::Boolean(BoolV::Shared),
        ),
    decreases fuel, 6int,
{
    let mut outcome = unify_pool_help(subs, pool, shared_var, cvar, fuel - 1);
    let m = mvars.len();
    let mut i: usize = 0;
    while i < m
        invariant
            fuel >= 1,
            subs.wf(),
            old(subs).n() <= subs.n(),
            i <= m,
            m == mvars.seq().len(),
            members_ok(mvars@, old(subs).n()),
            shared_var < old(subs).n(),
            pool_lower_ok(old(pool)@, pool@, old(subs).n()),
            pool_upper_ok(old(pool)@, pool@, subs.n()),
        decreases m - i,
    {
        let mvar = mvars.var_at(i);
        let ghost pool_mid = pool@;
        let ghost subs_mid = *subs;
        let mut more = unify_pool_help(subs, pool, shared_var, mvar, fuel - 1);
        proof {
            lemma_pool_compose(old(pool)@, pool_mid, pool@, old(subs).n(), subs_mid.n(), subs.n());
        }
        outcome.append(&mut more);
        i = i + 1;
    }
    let ghost pool_mid = pool@;
    let ghost subs_mid = *subs;
    let mut merged = merge(subs, ctx, Content::Structure(FlatType::Boolean(Bool::Shared)));
    proof {
        lemma_pool_compose(old(pool)@, pool_mid, pool@, old(subs).n(), subs_mid.n(), subs.n());
    }
    outcome.append(&mut merged);
    outcome
}

// ---------------------------------------------------------------------------
// Row and tag gathering, and the small structural helpers.
// ---------------------------------------------------------------------------

/// A record row flattened by chasing its extension: the collected fields and
/// the terminal extension variable.
pub struct RecordStructure {
    pub fields: FieldMap,
    pub ext: Variable,
}

/// A tag row flattened by chasing its extension.
struct TagUnionStructure {
    tags: TagMap,
    ext: Variable,
}

/// The record structure's collections are well formed and its variables are
/// variables of a store with `n` slots.
pub open spec fn record_structure_ok(fields: FieldMap, ext: Variable, n: int) -> bool {
    fields.wf() && fields_ok(fields@, n) && ext < n
}

/// The tag structure's collections are well formed and its variables are
/// variables of a store with `n` slots.
pub open spec fn tag_structure_ok(tags: TagMap, ext: Variable, n: int) -> bool {
    tags.wf() && tags_ok(tags@, n) && ext < n
}

/// Every field pair of a shared-field list is in bounds.
pub open spec fn shared_fields_ok(s: Seq<(Lowercase, RecordField, RecordField)>, n: int) -> bool {
    forall|i: int| 0 <= i < s.len() ==> (#[trigger] s[i]).1.variable() < n && (s[i]).2.variable()
        < n
}

/// Every payload pair of a shared-tag list is in bounds.
pub open spec fn shared_tags_ok(s: Seq<(TagName, Vec<Variable>, Vec<Variable>)>, n: int) -> bool {
    forall|i: int| 0 <= i < s.len() ==> vars_ok((#[trigger] s[i]).1@, n) && vars_ok((s[i]).2@, n)
}

/// Every shared field pair already agrees: its two variables are equivalent
/// and its kinds combine.
pub open spec fn shared_fields_agree(
    pre: Subs,
    s: Seq<(Lowercase, RecordField, RecordField)>,
) -> bool {
    forall|i: int| 0 <= i < s.len() ==> pre.equiv(
        (#[trigger] s[i]).1.variable(),
        (s[i]).2.variable(),
    ) && spec_combine_fields((s[i]).1, (s[i]).2) is Some
}

/// The two variable lists agree pairwise over their common length.
pub open spec fn vars_agree(pre: Subs, left: Seq<Variable>, right: Seq<Variable>) -> bool {
    forall|i: int| 0 <= i < left.len() && i < right.len() ==> pre.equiv(
        #[trigger] left[i],
        right[i],
    )
}

/// Every shared tag pair already agrees: equal arity and pairwise equivalent
/// payload variables.
pub open spec fn shared_tags_agree(pre: Subs, s: Seq<(TagName, Vec<Variable>, Vec<Variable>)>)
    -> bool {
    forall|i: int| 0 <= i < s.len() ==> (#[trigger] s[i]).1@.len() == (s[i]).2@.len() && (forall|
        j: int,
    | 0 <= j < (s[i]).1@.len() ==> pre.equiv(#[trigger] (s[i]).1@[j], (s[i]).2@[j]))
}

/// Collects the fields of a record row, following chained record extensions
/// and looking through aliases; fields already collected win. The walk stops
/// at the first content that is neither, which becomes the row's extension.
#[verifier::loop_isolation(false)]
fn gather_fields(subs: &Subs, fields: FieldMap, var: Variable) -> (r: RecordStructure)
    requires
        subs.wf(),
        fields.wf(),
        fields_ok(fields@, subs.n()),
        var < subs.n(),
    ensures
        record_structure_ok(r.fields, r.ext, subs.n()),
        forall|k: Lowercase| #[trigger] fields@.dom().contains(k) ==> r.fields@.dom().contains(k)
            && r.fields@[k] == fields@[k],
        (subs.content_at(var) matches ContentV::Structure(FlatTypeV::Record(m2, _))
            ==> forall|k: Lowercase| #[trigger] m2.dom().contains(k) ==> r.fields@.dom().contains(
            k,
        )),
        (!(subs.content_at(var) matches ContentV::Structure(FlatTypeV::Record(_, _))) && !(
        subs.content_at(var) is Alias) ==> r.fields@ == fields@ && r.ext == var),
{
    let ghost var0 = var;
    let ghost orig = fields@;
    let mut fields = fields;
    let mut var = var;
    let mut steps: usize = subs.var_count();
    loop
        invariant
            subs.wf(),
            fields.wf(),
            fields_ok(fields@, subs.n()),
            var < subs.n(),
            forall|k: Lowercase| #[trigger] orig.dom().contains(k) ==> fields@.dom().contains(k)
                && fields@[k] == orig[k],
            (subs.content_at(var0) matches ContentV::Structure(FlatTypeV::Record(m2, _)) ==> (var
                == var0 || forall|k: Lowercase|
                #[trigger] m2.dom().contains(k) ==> fields@.dom().contains(k))),
            (!(subs.content_at(var0) matches ContentV::Structure(FlatTypeV::Record(_, _))) && !(
            subs.content_at(var0) is Alias) ==> var == var0 && fields@ == orig),
        decreases steps,
    {
        let d = subs.get(var);
        match d.content {
            Content::Structure(FlatType::Record(sub_fields, sub_ext)) => {
                let merged = union(fields, &sub_fields);
                proof {
                    assert forall|k: Lowercase| #[trigger] merged@.dom().contains(k) implies
                        merged@[k].variable() < subs.n() by {
                        assert(merged@ == sub_fields@.union_prefer_right(fields@));
                    }
                }
                fields = merged;
                if steps == 0 {
                    return RecordStructure { fields, ext: var };
                }
                steps = steps - 1;
                var = sub_ext;
            },
            Content::Alias(_, _, real_var) => {
                if steps == 0 {
                    return RecordStructure { fields, ext: var };
                }
                steps = steps - 1;
                var = real_var;
            },
            _ => {
                return RecordStructure { fields, ext: var };
            },
        }
    }
}

/// Collects the tags of a tag-union row, following chained extensions and
/// looking through aliases; tags already collected win.
#[verifier::loop_isolation(false)]
fn gather_tags(subs: &Subs, tags: TagMap, var: Variable) -> (r: TagUnionStructure)
    requires
        subs.wf(),
        tags.wf(),
        tags_ok(tags@, subs.n()),
        var < subs.n(),
    ensures
        tag_structure_ok(r.tags, r.ext, subs.n()),
        forall|k: TagName| #[trigger] tags@.dom().contains(k) ==> r.tags@.dom().contains(k)
            && r.tags@[k] == tags@[k],
        (subs.content_at(var) matches ContentV::Structure(FlatTypeV::TagUnion(m2, _))
            ==> forall|k: TagName| #[trigger] m2.dom().contains(k) ==> r.tags@.dom().contains(k)),
        (!(subs.content_at(var) matches ContentV::Structure(FlatTypeV::TagUnion(_, _))) && !(
        subs.content_at(var) is Alias) ==> r.tags@ == tags@ && r.ext == var),
{
    let ghost var0 = var;
    let ghost orig = tags@;
    let mut tags = tags;
    let mut var = var;
    let mut steps: usize = subs.var_count();
    loop
        invariant
            subs.wf(),
            tags.wf(),
            tags_ok(tags@, subs.n()),
            var < subs.n(),
            forall|k: TagName| #[trigger] orig.dom().contains(k) ==> tags@.dom().contains(k)
                && tags@[k] == orig[k],
            (subs.content_at(var0) matches ContentV::Structure(FlatTypeV::TagUnion(m2, _)) ==> (var
                == var0 || forall|k: TagName|
                #[trigger] m2.dom().contains(k) ==> tags@.dom().contains(k))),
            (!(subs.content_at(var0) matches ContentV::Structure(FlatTypeV::TagUnion(_, _))) && !(
            subs.content_at(var0) is Alias) ==> var == var0 && tags@ == orig),
        decreases steps,
    {
        let d = subs.get(var);
        match d.content {
            Content::Structure(FlatType::TagUnion(sub_tags, sub_ext)) => {
                let merged = tag_union(tags, &sub_tags);
                proof {
                    assert forall|k: TagName| #[trigger] merged@.dom().contains(k) implies vars_ok(
                        merged@[k],
                        subs.n(),
                    ) by {
                        assert(merged@ == sub_tags@.union_prefer_right(tags@));
                    }
                }
                tags = merged;
                if steps == 0 {
                    return TagUnionStructure { tags, ext: var };
                }
                steps = steps - 1;
                var = sub_ext;
            },
            Content::Alias(_, _, real_var) => {
                if steps == 0 {
                    return TagUnionStructure { tags, ext: var };
                }
                steps = steps - 1;
                var = real_var;
            },
            _ => {
                return TagUnionStructure { tags, ext: var };
            },
        }
    }
}

/// Pulls any fields exposed through the extension into the map, overwriting
/// collected entries; returns the terminal extension when the row does not
/// close with an empty record.
fn chase_ext_record(subs: &Subs, ext: Variable, fields: &mut FieldMap) -> (r: Result<(), Variable>)
    requires
        subs.wf(),
        ext < subs.n(),
        old(fields).wf(),
        fields_ok(old(fields)@, subs.n()),
    ensures
        final(fields).wf(),
        fields_ok(final(fields)@, subs.n()),
        forall|k: Lowercase| old(fields)@.dom().contains(k) ==> final(fields)@.dom().contains(k),
        (r matches Err(v) ==> v < subs.n()),
        (subs.content_at(ext) == ContentV::Structure(FlatTypeV::EmptyRecord) ==> r is Ok
            && final(fields)@ == old(fields)@),
        ((subs.content_at(ext) is FlexVar || subs.content_at(ext) is RigidVar || subs.content_at(
            ext,
        ) is Error) ==> (r matches Err(v) && v == ext) && final(fields)@ == old(fields)@),
        (subs.content_at(ext) matches ContentV::Structure(FlatTypeV::Record(m2, _))
            ==> forall|k: Lowercase| #[trigger] m2.dom().contains(k)
                ==> final(fields)@.dom().contains(k)),
{
    let mut var = ext;
    let mut steps: usize = subs.var_count();
    loop
        invariant
            subs.wf(),
            fields.wf(),
            fields_ok(fields@, subs.n()),
            forall|k: Lowercase| old(fields)@.dom().contains(k) ==> fields@.dom().contains(k),
            var < subs.n(),
            ext < subs.n(),
            ((subs.content_at(ext) == ContentV::Structure(FlatTypeV::EmptyRecord)
                || subs.content_at(ext) is FlexVar || subs.content_at(ext) is RigidVar
                || subs.content_at(ext) is Error) ==> var == ext && fields@ == old(fields)@),
            (subs.content_at(ext) matches ContentV::Structure(FlatTypeV::Record(m2, _)) ==> (var
                == ext || forall|k: Lowercase|
                #[trigger] m2.dom().contains(k) ==> fields@.dom().contains(k))),
        decreases steps,
    {
        let d = subs.get(var);
        let ghost dcv = d.content@;
        match d.content {
            Content::Structure(FlatType::Record(sub_fields, sub_ext)) => {
                let ghost fields_before = fields@;
                let m = sub_fields.len();
                let mut i: usize = 0;
                while i < m
                    invariant
                        subs.wf(),
                        i <= m,
                        m == sub_fields.kseq().len(),
                        sub_fields.wf(),
                        fields_ok(sub_fields@, subs.n()),
                        fields.wf(),
                        fields_ok(fields@, subs.n()),
                        forall|k: Lowercase| old(fields)@.dom().contains(k) ==> fields@.dom().contains(
                            k,
                        ),
                        forall|k: Lowercase| fields_before.dom().contains(k)
                            ==> fields@.dom().contains(k),
                        forall|j: int| 0 <= j < i ==> fields@.dom().contains(
                            (#[trigger] sub_fields.kseq()[j]).0,
                        ),
                    decreases m - i,
                {
                    let (k, f) = sub_fields.pair_at(i);
                    proof {
                        lemma_map_of_index(sub_fields.kseq(), i as int);
                    }
                    fields.insert(k, f);
                    i = i + 1;
                }
                proof {
                    assert(dcv == ContentV::Structure(FlatTypeV::Record(sub_fields@, sub_ext)));
                    assert forall|k2: Lowercase| #[trigger] sub_fields@.dom().contains(k2) implies
                        fields@.dom().contains(k2) by {
                        lemma_map_of_dom(sub_fields.kseq(), k2);
                        let j = choose|j: int|
                            0 <= j < sub_fields.kseq().len() && (#[trigger] sub_fields.kseq()[j]).0
                                == k2;
                    }
                }
                var = sub_ext;
                if steps == 0 {
                    return Err(var);
                }
                steps = steps - 1;
            },
            Content::Structure(FlatType::EmptyRecord) => {
                return Ok(());
            },
            Content::Alias(_, _, real_var) => {
                if steps == 0 {
                    return Err(var);
                }
                steps = steps - 1;
                var = real_var;
            },
            _ => {
                return Err(var);
            },
        }
    }
}

/// Pulls any tags exposed through the extension into the map, overwriting
/// collected entries; returns the terminal extension when the row does not
/// close with an empty tag union.
fn chase_ext_tag_union(subs: &Subs, ext: Variable, tags: &mut TagMap) -> (r: Result<(), Variable>)
    requires
        subs.wf(),
        ext < subs.n(),
        old(tags).wf(),
        tags_ok(old(tags)@, subs.n()),
    ensures
        final(tags).wf(),
        tags_ok(final(tags)@, subs.n()),
        forall|k: TagName| old(tags)@.dom().contains(k) ==> final(tags)@.dom().contains(k),
        (r matches Err(v) ==> v < subs.n()),
        (subs.content_at(ext) == ContentV::Structure(FlatTypeV::EmptyTagUnion) ==> r is Ok
            && final(tags)@ == old(tags)@),
        ((subs.content_at(ext) is FlexVar || subs.content_at(ext) is RigidVar || subs.content_at(
            ext,
        ) is Error) ==> (r matches Err(v) && v == ext) && final(tags)@ == old(tags)@),
        (subs.content_at(ext) matches ContentV::Structure(FlatTypeV::TagUnion(m2, _))
            ==> forall|k: TagName| #[trigger] m2.dom().contains(k)
                ==> final(tags)@.dom().contains(k)),
{
    let mut var = ext;
    let mut steps: usize = subs.var_count();
    loop
        invariant
            subs.wf(),
            tags.wf(),
            tags_ok(tags@, subs.n()),
            forall|k: TagName| old(tags)@.dom().contains(k) ==> tags@.dom().contains(k),
            var < subs.n(),
            ext < subs.n(),
            ((subs.content_at(ext) == ContentV::Structure(FlatTypeV::EmptyTagUnion)
                || subs.content_at(ext) is FlexVar || subs.content_at(ext) is RigidVar
                || subs.content_at(ext) is Error) ==> var == ext && tags@ == old(tags)@),
            (subs.content_at(ext) matches ContentV::Structure(FlatTypeV::TagUnion(m2, _)) ==> (var
                == ext || forall|k: TagName|
                #[trigger] m2.dom().contains(k) ==> tags@.dom().contains(k))),
        decreases steps,
    {
        let d = subs.get(var);
        let ghost dcv = d.content@;
        match d.content {
            Content::Structure(FlatType::TagUnion(sub_tags, sub_ext)) => {
                let ghost tags_before = tags@;
                let m = sub_tags.len();
                let mut i: usize = 0;
                while i < m
                    invariant
                        subs.wf(),
                        i <= m,
                        m == sub_tags.kseq().len(),
                        sub_tags.wf(),
                        tags_ok(sub_tags@, subs.n()),
                        tags.wf(),
                        tags_ok(tags@, subs.n()),
                        forall|k: TagName| old(tags)@.dom().contains(k) ==> tags@.dom().contains(k),
                        forall|k: TagName| tags_before.dom().contains(k) ==> tags@.dom().contains(
                            k,
                        ),
                        forall|j: int| 0 <= j < i ==> tags@.dom().contains(
                            (#[trigger] sub_tags.kseq()[j]).0,
                        ),
                    decreases m - i,
                {
                    let k = sub_tags.key_at(i);
                    let payload = clone_vars(sub_tags.payload_at(i));
                    proof {
                        lemma_map_of_index(sub_tags.kseq(), i as int);
                    }
                    tags.insert(k, payload);
                    i = i + 1;
                }
                proof {
                    assert(dcv == ContentV::Structure(FlatTypeV::TagUnion(sub_tags@, sub_ext)));
                    assert forall|k2: TagName| #[trigger] sub_tags@.dom().contains(k2) implies
                        tags@.dom().contains(k2) by {
                        lemma_map_of_dom(sub_tags.kseq(), k2);
                        let j = choose|j: int|
                            0 <= j < sub_tags.kseq().len() && (#[trigger] sub_tags.kseq()[j]).0
                                == k2;
                    }
                }
                var = sub_ext;
                if steps == 0 {
                    return Err(var);
                }
                steps = steps - 1;
            },
            Content::Structure(FlatType::EmptyTagUnion) => {
                return Ok(());
            },
            Content::Alias(_, _, real_var) => {
                if steps == 0 {
                    return Err(var);
                }
                steps = steps - 1;
                var = real_var;
            },
            _ => {
                return Err(var);
            },
        }
    }
}

/// The flat type is the distinguished uniqueness wrapper with its two
/// arguments in place.
pub open spec fn is_attr_wrapper(ft: FlatTypeV) -> bool {
    ft matches FlatTypeV::Apply(s, args) && s == ATTR_ATTR && args.len() >= 2
}

/// The content settles the structure question without another resolution
/// step: anything but an alias or a peelable uniqueness wrapper.
pub open spec fn structure_decided(c: ContentV) -> bool {
    match c {
        ContentV::Structure(ft) => !is_attr_wrapper(ft),
        ContentV::Alias(_, _, _) => false,
        _ => true,
    }
}

/// Whether the variable resolves to a structure, looking through aliases and
/// through the uniqueness wrapper rather than treating it as a structure.
#[verifier::loop_isolation(false)]
fn is_structure(var: Variable, subs: &Subs) -> (r: bool)
    requires
        subs.wf(),
        var < subs.n(),
    ensures
        ((subs.content_at(var) is FlexVar || subs.content_at(var) is RigidVar || subs.content_at(
            var,
        ) is Error) ==> !r),
        (subs.content_at(var) matches ContentV::Structure(ft) ==> (!is_attr_wrapper(ft) ==> r)),
{
    let ghost var0 = var;
    let mut var = var;
    let mut steps: usize = subs.var_count();
    loop
        invariant
            subs.wf(),
            var < subs.n(),
            structure_decided(subs.content_at(var0)) ==> var == var0,
        decreases steps,
    {
        let d = subs.get(var);
        match d.content {
            Content::Alias(_, _, real_var) => {
                if steps == 0 {
                    return false;
                }
                steps = steps - 1;
                var = real_var;
            },
            Content::Structure(FlatType::Apply(symbol, args)) => {
                if symbol == ATTR_ATTR && args.len() >= 2 {
                    if steps == 0 {
                        return false;
                    }
                    steps = steps - 1;
                    proof {
                        assert(vars_ok(args@, subs.n()));
                    }
                    var = args[1];
                } else {
                    return true;
                }
            },
            Content::Structure(_) => {
                return true;
            },
            _ => {
                return false;
            },
        }
    }
}

/// Whether every field of the map is optional.
fn has_only_optional_fields(fields: &FieldMap) -> (r: bool)
    requires
        fields.wf(),
    ensures
        r == only_optional(fields@),
{
    let n = fields.len();
    let mut i: usize = 0;
    while i < n
        invariant
            n == fields.kseq().len(),
            i <= n,
            fields.wf(),
            forall|j: int| 0 <= j < i ==> (#[trigger] fields.kseq()[j]).1 is Optional,
        decreases n - i,
    {
        let (_, f) = fields.pair_at(i);
        match f {
            RecordField::Optional(_) => {},
            _ => {
                proof {
                    lemma_map_of_index(fields.kseq(), i as int);
                }
                return false;
            },
        }
        i = i + 1;
    }
    proof {
        assert forall|k: Lowercase| #[trigger] fields@.dom().contains(k) implies
            fields@[k] is Optional by {
            lemma_map_of_dom(fields.kseq(), k);
            let j = choose|j: int| 0 <= j < fields.kseq().len() && (#[trigger] fields.kseq()[j]).0
                == k;
            lemma_map_of_index(fields.kseq(), j);
        }
    }
    true
}

/// How the kinds of a shared field combine once its variables have unified:
/// `Demanded` never combines with `Optional`; `Demanded` absorbs `Required`;
/// `Required` absorbs `Optional`; like kinds keep their kind. The variable
/// kept is the left (actual) side's, except that a `Demanded`/`Required`
/// pair keeps the demanded one.
pub open spec fn spec_combine_fields(actual: RecordField, expected: RecordField) -> Option<
    RecordField,
> {
    match (actual, expected) {
        (RecordField::Demanded(_), RecordField::Optional(_)) => None,
        (RecordField::Optional(_), RecordField::Demanded(_)) => None,
        (RecordField::Demanded(val), RecordField::Required(_)) => Some(RecordField::Demanded(val)),
        (RecordField::Required(val), RecordField::Demanded(_)) => Some(RecordField::Demanded(val)),
        (RecordField::Demanded(val), RecordField::Demanded(_)) => Some(RecordField::Demanded(val)),
        (RecordField::Required(val), RecordField::Required(_)) => Some(RecordField::Required(val)),
        (RecordField::Required(val), RecordField::Optional(_)) => Some(RecordField::Required(val)),
        (RecordField::Optional(val), RecordField::Required(_)) => Some(RecordField::Required(val)),
        (RecordField::Optional(val), RecordField::Optional(_)) => Some(RecordField::Optional(val)),
    }
}

/// Combines the kinds of a shared field; `None` marks the incompatible
/// `Demanded`/`Optional` pairing.
pub fn combine_fields(actual: RecordField, expected: RecordField) -> (r: Option<RecordField>)
    ensures
        r == spec_combine_fields(actual, expected),
        (r matches Some(f) ==> f.variable() == actual.variable() || f.variable()
            == expected.variable()),
{
    match (actual, expected) {
        (RecordField::Demanded(_), RecordField::Optional(_)) => None,
        (RecordField::Optional(_), RecordField::Demanded(_)) => None,
        (RecordField::Demanded(val), RecordField::Required(_)) => Some(RecordField::Demanded(val)),
        (RecordField::Required(val), RecordField::Demanded(_)) => Some(RecordField::Demanded(val)),
        (RecordField::Demanded(val), RecordField::Demanded(_)) => Some(RecordField::Demanded(val)),
        (RecordField::Required(val), RecordField::Required(_)) => Some(RecordField::Required(val)),
        (RecordField::Required(val), RecordField::Optional(_)) => Some(RecordField::Required(val)),
        (RecordField::Optional(val), RecordField::Required(_)) => Some(RecordField::Required(val)),
        (RecordField::Optional(val), RecordField::Optional(_)) => Some(RecordField::Optional(val)),
    }
}

/// Whether the variable's class is already known to be the shared boolean.
fn var_is_shared(subs: &Subs, v: Variable) -> (r: bool)
    requires
        subs.wf(),
        v < subs.n(),
    ensures
        r == (subs.content_at(v) == ContentV::Structure(FlatTypeV::Boolean(BoolV::Shared))),
{
    let d = subs.get(v);
    match d.content {
        Content::Structure(FlatType::Boolean(Bool::Shared)) => true,
        _ => {
            proof {
                assert(d.content@ != ContentV::Structure(FlatTypeV::Boolean(BoolV::Shared)));
            }
            false
        },
    }
}

/// The variable's class is already the shared boolean.
pub open spec fn spec_var_is_shared(pre: Subs, v: Variable) -> bool {
    pre.content_at(v) == ContentV::Structure(FlatTypeV::Boolean(BoolV::Shared))
}

/// What normalising a uniqueness boolean against the store yields: a
/// container whose attribute variable is already shared collapses to
/// `Shared`, and members already known to be shared are dropped.
pub open spec fn simplify_bool_spec(pre: Subs, b: BoolV) -> BoolV {
    match b {
        BoolV::Shared => BoolV::Shared,
        BoolV::Container(c, ms) => if spec_var_is_shared(pre, c) {
            BoolV::Shared
        } else {
            BoolV::Container(c, ms.filter(|v: Variable| !spec_var_is_shared(pre, v)))
        },
    }
}

/// Normalises a uniqueness boolean against the store: a container whose
/// attribute variable is already shared collapses to `Shared`, and members
/// already known to be shared are dropped.
fn simplify_bool(subs: &Subs, b: &Bool) -> (r: Bool)
    requires
        subs.wf(),
        bool_ok(b@, subs.n()),
        (match b {
            Bool::Container(_, ms) => ms.wf(),
            Bool::Shared => true,
        }),
    ensures
        bool_ok(r@, subs.n()),
        (match &r {
            Bool::Container(_, ms) => ms.wf(),
            Bool::Shared => true,
        }),
        r@ == simplify_bool_spec(*subs, b@),
{
    match b {
        Bool::Shared => Bool::Shared,
        Bool::Container(cvar, mvars) => {
            proof {
                assert(bool_ok(BoolV::Container(*cvar, mvars@), subs.n()));
            }
            if var_is_shared(subs, *cvar) {
                Bool::Shared
            } else {
                let mut kept = VarSet::new();
                let m = mvars.len();
                let mut i: usize = 0;
                while i < m
                    invariant
                        subs.wf(),
                        i <= m,
                        m == mvars.seq().len(),
                        members_ok(mvars@, subs.n()),
                        kept.wf(),
                        members_ok(kept@, subs.n()),
                        forall|w: Variable| #[trigger] kept@.contains(w) <==> exists|j: int|
                            0 <= j < i && w == mvars.seq()[j] && !spec_var_is_shared(*subs, w),
                    decreases m - i,
                {
                    let v = mvars.var_at(i);
                    if !var_is_shared(subs, v) {
                        kept.insert(v);
                    }
                    i = i + 1;
                }
                proof {
                    assert forall|w: Variable| #[trigger] kept@.contains(w) implies mvars@.filter(
                        |v: Variable| !spec_var_is_shared(*subs, v),
                    ).contains(w) by {
                        let j = choose|j: int|
                            0 <= j < m && w == mvars.seq()[j] && !spec_var_is_shared(*subs, w);
                        assert(mvars.seq().contains(mvars.seq()[j]));
                        assert(mvars@.contains(w));
                    }
                    assert forall|w: Variable| mvars@.filter(
                        |v: Variable| !spec_var_is_shared(*subs, v),
                    ).contains(w) implies kept@.contains(w) by {
                        assert(mvars@.contains(w) && !spec_var_is_shared(*subs, w));
                        let j = choose|j: int| 0 <= j < mvars.seq().len() && mvars.seq()[j] == w;
                    }
                    assert(kept@ =~= mvars@.filter(|v: Variable| !spec_var_is_shared(*subs, v)));
                }
                Bool::Container(*cvar, kept)
            }
        },
    }
}

/// Unifies two variable lists position by position, collecting mismatches.
fn unify_zip(
    subs: &mut Subs,
    pool: &mut Pool,
    left: &Vec<Variable>,
    right: &Vec<Variable>,
    fuel: u64,
) -> (out: Outcome)
    requires
        old(subs).wf(),
        fuel >= 1,
        vars_ok(left@, old(subs).n()),
        vars_ok(right@, old(subs).n()),
    ensures
        final(subs).wf(),
        old(subs).n() <= final(subs).n(),
        pool_lower_ok(old(pool)@, final(pool)@, old(subs).n()),
        pool_upper_ok(old(pool)@, final(pool)@, final(subs).n()),
        vars_agree(*old(subs), left@, right@) ==> out@.len() == 0 && final(subs)@ == old(subs)@
            && final(pool)@ == old(pool)@,
        (fuel >= 2 && left@.len() > 0 && right@.len() > 0 && !old(subs).equiv(left@[0], right@[0])
            && shallow_verdict(
            old(subs).content_at(left@[0]),
            old(subs).content_at(right@[0]),
        ) == Some(false) ==> out@.len() > 0),
    decreases fuel, 5int,
{
    let mut problems: Vec<Mismatch> = Vec::new();
    let k = if left.len() <= right.len() {
        left.len()
    } else {
        right.len()
    };
    let mut i: usize = 0;
    while i < k
        invariant
            fuel >= 1,
            subs.wf(),
            old(subs).n() <= subs.n(),
            i <= k,
            k <= left@.len(),
            k <= right@.len(),
            vars_ok(left@, old(subs).n()),
            vars_ok(right@, old(subs).n()),
            vars_agree(*old(subs), left@, right@) ==> problems@.len() == 0 && subs@ == old(subs)@
                && pool@ == old(pool)@,
            (fuel >= 2 && i > 0 && !old(subs).equiv(left@[0], right@[0]) && shallow_verdict(
                old(subs).content_at(left@[0]),
                old(subs).content_at(right@[0]),
            ) == Some(false)) ==> problems@.len() > 0,
            i == 0 ==> subs@ == old(subs)@,
            pool_lower_ok(old(pool)@, pool@, old(subs).n()),
            pool_upper_ok(old(pool)@, pool@, subs.n()),
        decreases k - i,
    {
        let ghost pool_mid = pool@;
        let ghost subs_mid = *subs;
        let mut more = unify_pool_help(subs, pool, left[i], right[i], fuel - 1);
        proof {
            lemma_pool_compose(old(pool)@, pool_mid, pool@, old(subs).n(), subs_mid.n(), subs.n());
            if i == 0 && fuel >= 2 && !old(subs).equiv(left@[0], right@[0]) {
                lemma_verdict_sound(subs_mid, *subs, left@[0], right@[0], more@.len() == 0);
            }
        }
        problems.append(&mut more);
        i = i + 1;
    }
    problems
}

// ---------------------------------------------------------------------------
// The recursive entry.
// ---------------------------------------------------------------------------

/// The re-entrant unifier, with an explicit recursion budget.
fn unify_pool_help(subs: &mut Subs, pool: &mut Pool, var1: Variable, var2: Variable, fuel: u64) -> (out:
    Outcome)
    requires
        old(subs).wf(),
        var1 < old(subs).n(),
        var2 < old(subs).n(),
    ensures
        final(subs).wf(),
        old(subs).n() <= final(subs).n(),
        pool_lower_ok(old(pool)@, final(pool)@, old(subs).n()),
        pool_upper_ok(old(pool)@, final(pool)@, final(subs).n()),
        old(subs).equiv(var1, var2) ==> out@.len() == 0 && final(subs)@ == old(subs)@
            && final(pool)@ == old(pool)@,
        fuel >= 1 ==> unify_outcome_ok(*old(subs), *final(subs), var1, var2, out@.len() == 0),
        fuel >= 2 ==> alias_expansion_ok(
            *old(subs),
            old(subs).content_at(var1),
            var2,
            out@.len() == 0,
        ),
        fuel >= 2 ==> record_vs_empty_ok(*old(subs), var1, var2, out@.len() == 0),
        fuel >= 2 ==> components_outcome_ok(
            *old(subs),
            old(subs).content_at(var1),
            old(subs).content_at(var2),
            out@.len() == 0,
        ),
        fuel >= 2 ==> structure_vs_alias_ok(*old(subs), var1, var2, out@.len() == 0),
        (fuel >= 2 && (old(subs).content_at(var1) matches ContentV::Structure(f1) && (old(
            subs,
        ).content_at(var2) matches ContentV::Structure(f2) && disjoint_closed_tag_rows(
            *old(subs),
            f1,
            f2,
        )))) ==> out@.len() > 0,
    decreases fuel, 10int,
{
    if subs.equivalent(var1, var2) {
        Vec::new()
    } else if fuel == 0 {
        vec![Mismatch::TypeMismatch]
    } else {
        let first_desc = subs.get(var1);
        let second_desc = subs.get(var2);
        let ctx = Context { first: var1, first_desc, second: var2, second_desc };
        unify_context(subs, pool, ctx, fuel)
    }
}

/// Registering one fresh variable extends the pool within bounds.
proof fn lemma_pool_push(p: Seq<Variable>, v: Variable, n_pre: int, n_post: int)
    requires
        n_pre <= v < n_post,
    ensures
        pool_lower_ok(p, p.push(v), n_pre),
        pool_upper_ok(p, p.push(v), n_post),
{
    assert(p =~= p.push(v).subrange(0, p.len() as int));
}

// ---------------------------------------------------------------------------
// Record unification.
// ---------------------------------------------------------------------------

/// Unifies two flattened record rows: shared fields are unified pairwise and
/// each side's unique fields are pushed into the other side's extension.
fn unify_record(
    subs: &mut Subs,
    pool: &mut Pool,
    ctx: &Context,
    rec1: RecordStructure,
    rec2: RecordStructure,
    fuel: u64,
) -> (out: Outcome)
    requires
        old(subs).wf(),
        fuel >= 1,
        ctx.first_spec() < old(subs).n(),
        ctx.second_spec() < old(subs).n(),
        record_structure_ok(rec1.fields, rec1.ext, old(subs).n()),
        record_structure_ok(rec2.fields, rec2.ext, old(subs).n()),
    ensures
        final(subs).wf(),
        old(subs).n() <= final(subs).n(),
        pool_lower_ok(old(pool)@, final(pool)@, old(subs).n()),
        pool_upper_ok(old(pool)@, final(pool)@, final(subs).n()),
        out@.len() == 0 ==> final(subs).equiv(ctx.first_spec(), ctx.second_spec())
            && is_record_structure(final(subs).content_at(ctx.first_spec())),
        (exists|k: Lowercase|
            #![trigger rec1.fields@[k], rec2.fields@[k]]
            rec1.fields@.dom().contains(k) && rec2.fields@.dom().contains(k)
                && spec_combine_fields(rec1.fields@[k], rec2.fields@[k]) is None) ==> out@.len()
            > 0,
        out@.len() == 0 ==> (final(subs).content_at(ctx.first_spec()) matches ContentV::Structure(
            FlatTypeV::Record(m, _),
        ) && forall|k: Lowercase|
            rec1.fields@.dom().contains(k) && #[trigger] rec2.fields@.dom().contains(k)
                ==> m.dom().contains(k)),
        (rec1.fields@.dom() == rec2.fields@.dom() && (forall|k: Lowercase|
            #[trigger] rec1.fields@.dom().contains(k) ==> old(subs).equiv(
                rec1.fields@[k].variable(),
                rec2.fields@[k].variable(),
            ) && spec_combine_fields(rec1.fields@[k], rec2.fields@[k]) is Some) && old(subs).equiv(
            rec1.ext,
            rec2.ext,
        )) ==> out@.len() == 0,
        (fuel >= 2 && rec1.fields@.dom() == rec2.fields@.dom() && !old(subs).equiv(
            rec1.ext,
            rec2.ext,
        ) && shallow_verdict(
            old(subs).content_at(rec1.ext),
            old(subs).content_at(rec2.ext),
        ) == Some(false)) ==> out@.len() > 0,
        (rec1.fields@.dom() == rec2.fields@.dom() && (forall|k: Lowercase|
            #[trigger] rec1.fields@.dom().contains(k) ==> old(subs).equiv(
                rec1.fields@[k].variable(),
                rec2.fields@[k].variable(),
            ) && spec_combine_fields(rec1.fields@[k], rec2.fields@[k]) is Some) && old(subs).equiv(
            rec1.ext,
            rec2.ext,
        ) && (old(subs).content_at(rec1.ext) is FlexVar || old(subs).content_at(rec1.ext)
            == ContentV::Structure(FlatTypeV::EmptyRecord))) ==> (final(subs).content_at(
            ctx.first_spec(),
        ) matches ContentV::Structure(FlatTypeV::Record(m, new_ext)) && {
            &&& (forall|k: Lowercase| #[trigger] rec1.fields@.dom().contains(k)
                ==> m.dom().contains(k) && Some(m[k]) == spec_combine_fields(
                rec1.fields@[k],
                rec2.fields@[k],
            ))
            &&& (forall|k: Lowercase| #[trigger] m.dom().contains(k)
                ==> rec1.fields@.dom().contains(k))
            &&& new_ext == (if old(subs).content_at(rec1.ext) is FlexVar {
                rec1.ext
            } else {
                EMPTY_RECORD_VAR
            })
        }),
    decreases fuel, 6int,
{
    let ghost n0 = old(subs).n();
    let ghost doms_equal = rec1.fields@.dom() == rec2.fields@.dom();
    let ghost rows_agree = doms_equal && (forall|k: Lowercase|
        #[trigger] rec1.fields@.dom().contains(k) ==> old(subs).equiv(
            rec1.fields@[k].variable(),
            rec2.fields@[k].variable(),
        ) && spec_combine_fields(rec1.fields@[k], rec2.fields@[k]) is Some) && old(subs).equiv(
        rec1.ext,
        rec2.ext,
    );
    let fields1 = rec1.fields;
    let fields2 = rec2.fields;
    let shared_fields = get_shared(&fields1, &fields2);
    // In contrast to a symmetric difference, each complement is taken on its
    // own side.
    let unique_fields1 = relative_complement(&fields1, &fields2);
    let unique_fields2 = relative_complement(&fields2, &fields1);
    proof {
        assert(shared_fields_ok(shared_fields@, n0)) by {
            assert forall|i: int| 0 <= i < shared_fields@.len() implies (
            #[trigger] shared_fields@[i]).1.variable() < n0 && (shared_fields@[i]).2.variable()
                < n0 by {
                let k = (shared_fields@[i]).0;
                assert(fields1@.dom().contains(k) && fields1@[k] == (shared_fields@[i]).1);
                assert(fields2@.dom().contains(k) && fields2@[k] == (shared_fields@[i]).2);
            }
        }
        assert(fields_ok(unique_fields1@, n0)) by {
            assert forall|k: Lowercase| #[trigger] unique_fields1@.dom().contains(k) implies
                unique_fields1@[k].variable() < n0 by {
                assert(fields1@.dom().contains(k) && unique_fields1@[k] == fields1@[k]);
            }
        }
        assert(fields_ok(unique_fields2@, n0)) by {
            assert forall|k: Lowercase| #[trigger] unique_fields2@.dom().contains(k) implies
                unique_fields2@[k].variable() < n0 by {
                assert(fields2@.dom().contains(k) && unique_fields2@[k] == fields2@[k]);
            }
        }
    }
    if unique_fields1.is_empty() {
        if unique_fields2.is_empty() {
            let ext_problems = unify_pool_help(subs, pool, rec1.ext, rec2.ext, fuel - 1);
            proof {
                if fuel >= 2 && !old(subs).equiv(rec1.ext, rec2.ext) {
                    lemma_verdict_sound(
                        *old(subs),
                        *subs,
                        rec1.ext,
                        rec2.ext,
                        ext_problems@.len() == 0,
                    );
                }
            }
            if ext_problems.len() > 0 {
                return ext_problems;
            }
            proof {
                if rows_agree {
                    assert(shared_fields_agree(*old(subs), shared_fields@)) by {
                        assert forall|i: int| 0 <= i < shared_fields@.len() implies old(subs).equiv(
                            (#[trigger] shared_fields@[i]).1.variable(),
                            (shared_fields@[i]).2.variable(),
                        ) && spec_combine_fields(
                            (shared_fields@[i]).1,
                            (shared_fields@[i]).2,
                        ) is Some by {
                            let k = (shared_fields@[i]).0;
                            assert(rec1.fields@.dom().contains(k));
                        }
                    }
                }
            }
            let other_fields = FieldMap::new();
            let ghost pool1 = pool@;
            let ghost subs1 = *subs;
            let field_problems = unify_shared_fields(
                subs,
                pool,
                ctx,
                shared_fields,
                other_fields,
                rec1.ext,
                fuel,
            );
            proof {
                lemma_pool_compose(old(pool)@, pool1, pool@, n0, subs1.n(), subs.n());
            }
            field_problems
        } else {
            proof {
                if doms_equal {
                    lemma_map_of_index(unique_fields2.kseq(), 0);
                    assert(false);
                }
            }
            let flat_type = FlatType::Record(unique_fields2, rec2.ext);
            proof {
                lemma_content_ok_mono(
                    ContentV::Structure(flat_type@),
                    n0,
                    n0 + 1,
                );
            }
            let sub_record = fresh(subs, pool, ctx, Content::Structure(flat_type));
            proof {
                lemma_pool_push(old(pool)@, sub_record, n0, subs.n());
            }
            let ghost pool1 = pool@;
            let ghost subs1 = *subs;
            let ext_problems = unify_pool_help(subs, pool, rec1.ext, sub_record, fuel - 1);
            proof {
                lemma_pool_compose(old(pool)@, pool1, pool@, n0, subs1.n(), subs.n());
            }
            if ext_problems.len() > 0 {
                return ext_problems;
            }
            let other_fields = FieldMap::new();
            let ghost pool2 = pool@;
            let ghost subs2 = *subs;
            let field_problems = unify_shared_fields(
                subs,
                pool,
                ctx,
                shared_fields,
                other_fields,
                sub_record,
                fuel,
            );
            proof {
                lemma_pool_compose(old(pool)@, pool2, pool@, n0, subs2.n(), subs.n());
            }
            field_problems
        }
    } else if unique_fields2.is_empty() {
        proof {
            if doms_equal {
                lemma_map_of_index(unique_fields1.kseq(), 0);
                assert(false);
            }
        }
        let flat_type = FlatType::Record(unique_fields1, rec1.ext);
        proof {
            lemma_content_ok_mono(
                ContentV::Structure(flat_type@),
                n0,
                n0 + 1,
            );
        }
        let sub_record = fresh(subs, pool, ctx, Content::Structure(flat_type));
        proof {
            lemma_pool_push(old(pool)@, sub_record, n0, subs.n());
        }
        let ghost pool1 = pool@;
        let ghost subs1 = *subs;
        let ext_problems = unify_pool_help(subs, pool, sub_record, rec2.ext, fuel - 1);
        proof {
            lemma_pool_compose(old(pool)@, pool1, pool@, n0, subs1.n(), subs.n());
        }
        if ext_problems.len() > 0 {
            return ext_problems;
        }
        let other_fields = FieldMap::new();
        let ghost pool2 = pool@;
        let ghost subs2 = *subs;
        let field_problems = unify_shared_fields(
            subs,
            pool,
            ctx,
            shared_fields,
            other_fields,
            sub_record,
            fuel,
        );
        proof {
            lemma_pool_compose(old(pool)@, pool2, pool@, n0, subs2.n(), subs.n());
        }
        field_problems
    } else {
        proof {
            if doms_equal {
                lemma_map_of_index(unique_fields1.kseq(), 0);
                assert(false);
            }
        }
        let other_fields = union(unique_fields1.clone(), &unique_fields2);
        proof {
            assert forall|k: Lowercase| #[trigger] other_fields@.dom().contains(k) implies
                other_fields@[k].variable() < n0 by {
                assert(other_fields@ == unique_fields2@.union_prefer_right(unique_fields1@));
            }
        }
        let ext = fresh(subs, pool, ctx, Content::FlexVar(None));
        proof {
            lemma_pool_push(old(pool)@, ext, n0, subs.n());
        }
        let flat_type1 = FlatType::Record(unique_fields1, ext);
        let flat_type2 = FlatType::Record(unique_fields2, ext);
        proof {
            lemma_content_ok_mono(
                ContentV::Structure(flat_type1@),
                subs.n(),
                subs.n() + 1,
            );
        }
        let ghost pool1 = pool@;
        let ghost subs1 = *subs;
        let sub1 = fresh(subs, pool, ctx, Content::Structure(flat_type1));
        proof {
            lemma_pool_push(pool1, sub1, subs1.n(), subs.n());
            lemma_pool_compose(old(pool)@, pool1, pool@, n0, subs1.n(), subs.n());
            lemma_content_ok_mono(
                ContentV::Structure(flat_type2@),
                subs1.n(),
                subs.n() + 1,
            );
        }
        let ghost pool2 = pool@;
        let ghost subs2 = *subs;
        let sub2 = fresh(subs, pool, ctx, Content::Structure(flat_type2));
        proof {
            lemma_pool_push(pool2, sub2, subs2.n(), subs.n());
            lemma_pool_compose(old(pool)@, pool2, pool@, n0, subs2.n(), subs.n());
        }
        let ghost pool3 = pool@;
        let ghost subs3 = *subs;
        let rec1_problems = unify_pool_help(subs, pool, rec1.ext, sub2, fuel - 1);
        proof {
            lemma_pool_compose(old(pool)@, pool3, pool@, n0, subs3.n(), subs.n());
        }
        if rec1_problems.len() > 0 {
            return rec1_problems;
        }
        let ghost pool4 = pool@;
        let ghost subs4 = *subs;
        let rec2_problems = unify_pool_help(subs, pool, sub1, rec2.ext, fuel - 1);
        proof {
            lemma_pool_compose(old(pool)@, pool4, pool@, n0, subs4.n(), subs.n());
        }
        if rec2_problems.len() > 0 {
            return rec2_problems;
        }
        let ghost pool5 = pool@;
        let ghost subs5 = *subs;
        let field_problems = unify_shared_fields(
            subs,
            pool,
            ctx,
            shared_fields,
            other_fields,
            ext,
            fuel,
        );
        proof {
            lemma_pool_compose(old(pool)@, pool5, pool@, n0, subs5.n(), subs.n());
        }
        field_problems
    }
}

/// Unifies the variables of every shared field and combines the field kinds;
/// a `Demanded`/`Optional` pairing contributes no match, which surfaces as a
/// mismatch. On success the surviving fields, any fields pulled in through
/// the extension, and the terminal extension are merged as the record.
fn unify_shared_fields(
    subs: &mut Subs,
    pool: &mut Pool,
    ctx: &Context,
    shared_fields: Vec<(Lowercase, RecordField, RecordField)>,
    other_fields: FieldMap,
    ext: Variable,
    fuel: u64,
) -> (out: Outcome)
    requires
        old(subs).wf(),
        fuel >= 1,
        ctx.first_spec() < old(subs).n(),
        ctx.second_spec() < old(subs).n(),
        shared_fields_ok(shared_fields@, old(subs).n()),
        forall|x: int, y: int| 0 <= x < y < shared_fields@.len() ==> (
        #[trigger] shared_fields@[x]).0 != (#[trigger] shared_fields@[y]).0,
        other_fields.wf(),
        fields_ok(other_fields@, old(subs).n()),
        ext < old(subs).n(),
    ensures
        final(subs).wf(),
        old(subs).n() <= final(subs).n(),
        pool_lower_ok(old(pool)@, final(pool)@, old(subs).n()),
        pool_upper_ok(old(pool)@, final(pool)@, final(subs).n()),
        out@.len() == 0 ==> final(subs).equiv(ctx.first_spec(), ctx.second_spec())
            && is_record_structure(final(subs).content_at(ctx.first_spec())),
        (exists|i: int|
            0 <= i < shared_fields@.len() && spec_combine_fields(
                (#[trigger] shared_fields@[i]).1,
                (shared_fields@[i]).2,
            ) is None) ==> out@.len() > 0,
        shared_fields_agree(*old(subs), shared_fields@) ==> out@.len() == 0,
        (fuel >= 2 && shared_fields@.len() > 0 && !old(subs).equiv(
            (shared_fields@[0]).1.variable(),
            (shared_fields@[0]).2.variable(),
        ) && shallow_verdict(
            old(subs).content_at((shared_fields@[0]).1.variable()),
            old(subs).content_at((shared_fields@[0]).2.variable()),
        ) == Some(false)) ==> out@.len() > 0,
        out@.len() == 0 ==> (final(subs).content_at(ctx.first_spec()) matches ContentV::Structure(
            FlatTypeV::Record(m, _),
        ) && forall|i: int|
            0 <= i < shared_fields@.len() ==> m.dom().contains((#[trigger] shared_fields@[i]).0)),
        (shared_fields_agree(*old(subs), shared_fields@) && (old(subs).content_at(ext) is FlexVar
            || old(subs).content_at(ext) == ContentV::Structure(FlatTypeV::EmptyRecord))) ==> (
        final(subs).content_at(ctx.first_spec()) matches ContentV::Structure(
            FlatTypeV::Record(m, new_ext),
        ) && {
            &&& (forall|i: int|
                0 <= i < shared_fields@.len() ==> m.dom().contains(
                    (#[trigger] shared_fields@[i]).0,
                ) && Some(m[(shared_fields@[i]).0]) == spec_combine_fields(
                    (shared_fields@[i]).1,
                    (shared_fields@[i]).2,
                ))
            &&& (forall|k: Lowercase| #[trigger] other_fields@.dom().contains(k)
                ==> m.dom().contains(k))
            &&& (forall|k: Lowercase| #[trigger] m.dom().contains(k) ==> (exists|i: int|
                0 <= i < shared_fields@.len() && (#[trigger] shared_fields@[i]).0 == k)
                || other_fields@.dom().contains(k))
            &&& new_ext == (if old(subs).content_at(ext) is FlexVar {
                ext
            } else {
                EMPTY_RECORD_VAR
            })
        }),
    decreases fuel, 5int,
{
    let ghost n0 = old(subs).n();
    let mut matching_fields = FieldMap::new();
    let mut matched: usize = 0;
    let num_shared_fields = shared_fields.len();
    let mut i: usize = 0;
    while i < num_shared_fields
        invariant
            fuel >= 1,
            subs.wf(),
            n0 <= subs.n(),
            n0 == old(subs).n(),
            i <= num_shared_fields,
            num_shared_fields == shared_fields@.len(),
            shared_fields_ok(shared_fields@, n0),
            forall|x: int, y: int| 0 <= x < y < shared_fields@.len() ==> (
            #[trigger] shared_fields@[x]).0 != (#[trigger] shared_fields@[y]).0,
            matching_fields.wf(),
            fields_ok(matching_fields@, subs.n()),
            matched <= i,
            matched == i ==> forall|j: int|
                0 <= j < i ==> matching_fields@.dom().contains((#[trigger] shared_fields@[j]).0)
                    && Some(matching_fields@[(shared_fields@[j]).0]) == spec_combine_fields(
                    (shared_fields@[j]).1,
                    (shared_fields@[j]).2,
                ),
            forall|k: Lowercase| #[trigger] matching_fields@.dom().contains(k) ==> exists|j: int|
                0 <= j < i && (#[trigger] shared_fields@[j]).0 == k,
            (exists|j: int|
                0 <= j < i && spec_combine_fields(
                    (#[trigger] shared_fields@[j]).1,
                    (shared_fields@[j]).2,
                ) is None) ==> matched < i,
            shared_fields_agree(*old(subs), shared_fields@) ==> subs@ == old(subs)@ && matched == i,
            (fuel >= 2 && i > 0 && !old(subs).equiv(
                (shared_fields@[0]).1.variable(),
                (shared_fields@[0]).2.variable(),
            ) && shallow_verdict(
                old(subs).content_at((shared_fields@[0]).1.variable()),
                old(subs).content_at((shared_fields@[0]).2.variable()),
            ) == Some(false)) ==> matched < i,
            i == 0 ==> subs@ == old(subs)@,
            pool_lower_ok(old(pool)@, pool@, n0),
            pool_upper_ok(old(pool)@, pool@, subs.n()),
        decreases num_shared_fields - i,
    {
        let (name, actual, expected) = shared_fields[i];
        let ghost pool_mid = pool@;
        let ghost subs_mid = *subs;
        let local_problems = unify_pool_help(
            subs,
            pool,
            actual.into_inner(),
            expected.into_inner(),
            fuel - 1,
        );
        proof {
            lemma_pool_compose(old(pool)@, pool_mid, pool@, n0, subs_mid.n(), subs.n());
            if i == 0 && fuel >= 2 && !old(subs).equiv(actual.variable(), expected.variable()) {
                lemma_verdict_sound(
                    subs_mid,
                    *subs,
                    actual.variable(),
                    expected.variable(),
                    local_problems@.len() == 0,
                );
            }
            assert forall|k: Lowercase| #[trigger] matching_fields@.dom().contains(k) implies
                matching_fields@[k].variable() < subs.n() by {
                assert(matching_fields@[k].variable() < subs_mid.n());
            }
        }
        if local_problems.len() == 0 {
            match combine_fields(actual, expected) {
                Some(combined) => {
                    proof {
                        assert forall|j: int| 0 <= j < i implies (#[trigger] shared_fields@[j]).0
                            != name by {
                            assert((shared_fields@[j]).0 != (shared_fields@[i as int]).0);
                        }
                    }
                    matching_fields.insert(name, combined);
                    matched = matched + 1;
                },
                None => {
                    // Demanded never unifies with Optional: the field does not
                    // contribute, and the count below falls short.
                },
            }
        }
        i = i + 1;
    }
    if matched == num_shared_fields {
        let mut fields = union(matching_fields, &other_fields);
        proof {
            assert forall|k: Lowercase| #[trigger] fields@.dom().contains(k) implies
                fields@[k].variable() < subs.n() by {
                assert(fields@ == other_fields@.union_prefer_right(matching_fields@));
            }
        }
        // Pull any fields exposed through the extension; the row closes with
        // the empty record when the chase ends there.
        let new_ext_var = match chase_ext_record(subs, ext, &mut fields) {
            Ok(()) => EMPTY_RECORD_VAR,
            Err(new_ext) => new_ext,
        };
        let flat_type = FlatType::Record(fields, new_ext_var);
        let ghost pool_mid = pool@;
        let ghost subs_mid = *subs;
        let out = merge(subs, ctx, Content::Structure(flat_type));
        proof {
            lemma_pool_compose(old(pool)@, pool_mid, pool@, n0, subs_mid.n(), subs.n());
        }
        out
    } else {
        vec![Mismatch::TypeMismatch]
    }
}

// ---------------------------------------------------------------------------
// Tag-union unification.
// ---------------------------------------------------------------------------

/// Unifies two flattened tag rows. In the case where both sides have unique
/// tags, the extension unifications run under a snapshot that is rolled back
/// on failure, so that the reported mismatch shows the original rows rather
/// than their merged superset.
fn unify_tag_union(
    subs: &mut Subs,
    pool: &mut Pool,
    ctx: &Context,
    rec1: TagUnionStructure,
    rec2: TagUnionStructure,
    recursion: (Option<Variable>, Option<Variable>),
    fuel: u64,
) -> (out: Outcome)
    requires
        old(subs).wf(),
        fuel >= 1,
        ctx.first_spec() < old(subs).n(),
        ctx.second_spec() < old(subs).n(),
        tag_structure_ok(rec1.tags, rec1.ext, old(subs).n()),
        tag_structure_ok(rec2.tags, rec2.ext, old(subs).n()),
        (recursion.0 matches Some(v) ==> v < old(subs).n()),
        (recursion.1 matches Some(v) ==> v < old(subs).n()),
    ensures
        final(subs).wf(),
        old(subs).n() <= final(subs).n(),
        pool_lower_ok(old(pool)@, final(pool)@, old(subs).n()),
        pool_upper_ok(old(pool)@, final(pool)@, final(subs).n()),
        out@.len() == 0 ==> final(subs).equiv(ctx.first_spec(), ctx.second_spec()) && (if
        recursion.0 is Some || recursion.1 is Some {
            is_recursive_tag_union_structure(final(subs).content_at(ctx.first_spec()))
        } else {
            is_tag_union_structure(final(subs).content_at(ctx.first_spec()))
        }),
        (exists|k: TagName|
            #![trigger rec1.tags@[k], rec2.tags@[k]]
            rec1.tags@.dom().contains(k) && rec2.tags@.dom().contains(k) && rec1.tags@[k].len()
                != rec2.tags@[k].len()) ==> out@.len() > 0,
        out@.len() == 0 ==> (tag_row_of(final(subs).content_at(ctx.first_spec())) matches Some(m)
            && forall|k: TagName|
            rec1.tags@.dom().contains(k) && #[trigger] rec2.tags@.dom().contains(k)
                ==> m.dom().contains(k)),
        out@.len() == 0 ==> (recursion.0 matches Some(v1) ==> (final(subs).content_at(
            ctx.first_spec(),
        ) matches ContentV::Structure(FlatTypeV::RecursiveTagUnion(rec, _, _)) && rec == v1)),
        out@.len() == 0 ==> (recursion.0 is None ==> (recursion.1 matches Some(v2)
            ==> (final(subs).content_at(ctx.first_spec()) matches ContentV::Structure(
            FlatTypeV::RecursiveTagUnion(rec, _, _),
        ) && rec == v2))),
        (fuel >= 2 && recursion.0 is None && recursion.1 is None && disjoint_closed_rows(
            *old(subs),
            &rec1,
            &rec2,
        )) ==> out@.len() > 0 && final(subs).desc_at(rec1.ext) == old(subs).desc_at(rec1.ext),
        (recursion.0 is None && recursion.1 is None && rec1.tags@.dom() == rec2.tags@.dom() && (
        forall|k: TagName|
            #[trigger] rec1.tags@.dom().contains(k) ==> rec1.tags@[k].len() == rec2.tags@[k].len()
                && (forall|j: int|
                0 <= j < rec1.tags@[k].len() ==> old(subs).equiv(
                    #[trigger] rec1.tags@[k][j],
                    rec2.tags@[k][j],
                ))) && old(subs).equiv(rec1.ext, rec2.ext)) ==> out@.len() == 0,
        (recursion.0 is None && recursion.1 is None && rec1.tags@.dom() == rec2.tags@.dom() && (
        forall|k: TagName|
            #[trigger] rec1.tags@.dom().contains(k) ==> rec1.tags@[k].len() == rec2.tags@[k].len()
                && (forall|j: int|
                0 <= j < rec1.tags@[k].len() ==> old(subs).equiv(
                    #[trigger] rec1.tags@[k][j],
                    rec2.tags@[k][j],
                ))) && old(subs).equiv(rec1.ext, rec2.ext) && (old(subs).content_at(
            rec1.ext,
        ) is FlexVar || old(subs).content_at(rec1.ext) == ContentV::Structure(
            FlatTypeV::EmptyTagUnion,
        ))) ==> (final(subs).content_at(ctx.first_spec()) matches ContentV::Structure(
            FlatTypeV::TagUnion(m, new_ext),
        ) && {
            &&& (forall|k: TagName| #[trigger] rec1.tags@.dom().contains(k) ==> m.dom().contains(k)
                && m[k] == rec1.tags@[k])
            &&& (forall|k: TagName| #[trigger] m.dom().contains(k)
                ==> rec1.tags@.dom().contains(k))
            &&& new_ext == (if old(subs).content_at(rec1.ext) is FlexVar {
                rec1.ext
            } else {
                EMPTY_TAG_UNION_VAR
            })
        }),
    decreases fuel, 6int,
{
    let ghost n0 = old(subs).n();
    let ghost disjoint_closed = recursion.0 is None && recursion.1 is None && disjoint_closed_rows(
        *old(subs),
        &rec1,
        &rec2,
    );
    let ghost rows_agree = recursion.0 is None && recursion.1 is None && rec1.tags@.dom()
        == rec2.tags@.dom() && (forall|k: TagName|
        #[trigger] rec1.tags@.dom().contains(k) ==> rec1.tags@[k].len() == rec2.tags@[k].len() && (
        forall|j: int|
            0 <= j < rec1.tags@[k].len() ==> old(subs).equiv(
                #[trigger] rec1.tags@[k][j],
                rec2.tags@[k][j],
            ))) && old(subs).equiv(rec1.ext, rec2.ext);
    let tags1 = rec1.tags;
    let tags2 = rec2.tags;
    let shared_tags = get_shared_tags(&tags1, &tags2);
    // In contrast to a symmetric difference, each complement is taken on its
    // own side.
    let unique_tags1 = tag_relative_complement(&tags1, &tags2);
    let unique_tags2 = tag_relative_complement(&tags2, &tags1);
    proof {
        assert(shared_tags_ok(shared_tags@, n0)) by {
            assert forall|i: int| 0 <= i < shared_tags@.len() implies vars_ok(
                (#[trigger] shared_tags@[i]).1@,
                n0,
            ) && vars_ok((shared_tags@[i]).2@, n0) by {
                let k = (shared_tags@[i]).0;
                assert(tags1@.dom().contains(k) && tags1@[k] == (shared_tags@[i]).1@);
                assert(tags2@.dom().contains(k) && tags2@[k] == (shared_tags@[i]).2@);
            }
        }
        assert(tags_ok(unique_tags1@, n0)) by {
            assert forall|k: TagName| #[trigger] unique_tags1@.dom().contains(k) implies vars_ok(
                unique_tags1@[k],
                n0,
            ) by {
                assert(tags1@.dom().contains(k) && unique_tags1@[k] == tags1@[k]);
            }
        }
        assert(tags_ok(unique_tags2@, n0)) by {
            assert forall|k: TagName| #[trigger] unique_tags2@.dom().contains(k) implies vars_ok(
                unique_tags2@[k],
                n0,
            ) by {
                assert(tags2@.dom().contains(k) && unique_tags2@[k] == tags2@[k]);
            }
        }
    }
    let recursion_var = match recursion {
        (None, None) => None,
        (Some(v), None) => Some(v),
        (None, Some(v)) => Some(v),
        (Some(v1), Some(v2)) => {
            // The two self-references are unified; any mismatch they produce
            // is not propagated here.
            let _ = unify_pool_help(subs, pool, v1, v2, fuel - 1);
            Some(v1)
        },
    };
    let ghost pool_r = pool@;
    let ghost subs_r = *subs;
    proof {
        if disjoint_closed {
            assert(exists|k: TagName| rec1.tags@.dom().contains(k)) by {
                if !(exists|k: TagName| rec1.tags@.dom().contains(k)) {
                    assert(rec1.tags@.dom() =~= Set::<TagName>::empty());
                }
            }
            let k1 = choose|k: TagName| rec1.tags@.dom().contains(k);
            assert(unique_tags1@.dom().contains(k1));
            assert(exists|k: TagName| rec2.tags@.dom().contains(k)) by {
                if !(exists|k: TagName| rec2.tags@.dom().contains(k)) {
                    assert(rec2.tags@.dom() =~= Set::<TagName>::empty());
                }
            }
            let k2 = choose|k: TagName| rec2.tags@.dom().contains(k);
            assert(!rec1.tags@.dom().contains(k2)) by {
                if rec1.tags@.dom().contains(k2) {
                    assert(!rec2.tags@.dom().contains(k2));
                }
            }
            assert(unique_tags2@.dom().contains(k2));
        }
    }
    if unique_tags1.is_empty() {
        proof {
            if disjoint_closed {
                lemma_map_of_dom(unique_tags1.kseq(), choose|k: TagName| rec1.tags@.dom().contains(k));
                assert(false);
            }
        }
        if unique_tags2.is_empty() {
            let ext_problems = unify_pool_help(subs, pool, rec1.ext, rec2.ext, fuel - 1);
            proof {
                lemma_pool_compose(old(pool)@, pool_r, pool@, n0, subs_r.n(), subs.n());
            }
            if ext_problems.len() > 0 {
                return ext_problems;
            }
            proof {
                if rows_agree {
                    assert(shared_tags_agree(*old(subs), shared_tags@)) by {
                        assert forall|i: int| 0 <= i < shared_tags@.len() implies (
                        #[trigger] shared_tags@[i]).1@.len() == (shared_tags@[i]).2@.len() && (
                        forall|j: int|
                            0 <= j < (shared_tags@[i]).1@.len() ==> old(subs).equiv(
                                #[trigger] (shared_tags@[i]).1@[j],
                                (shared_tags@[i]).2@[j],
                            )) by {
                            let k = (shared_tags@[i]).0;
                            assert(rec1.tags@.dom().contains(k));
                        }
                    }
                }
            }
            let ghost pool1 = pool@;
            let ghost subs1 = *subs;
            let tag_problems = unify_shared_tags(
                subs,
                pool,
                ctx,
                shared_tags,
                TagMap::new(),
                rec1.ext,
                recursion_var,
                fuel,
            );
            proof {
                lemma_pool_compose(old(pool)@, pool1, pool@, n0, subs1.n(), subs.n());
            }
            tag_problems
        } else {
            proof {
                if rows_agree {
                    lemma_map_of_index(unique_tags2.kseq(), 0);
                    assert(false);
                }
            }
            let flat_type = FlatType::TagUnion(unique_tags2, rec2.ext);
            proof {
                lemma_content_ok_mono(
                    ContentV::Structure(flat_type@),
                    subs.n(),
                    subs.n() + 1,
                );
            }
            let sub_record = fresh(subs, pool, ctx, Content::Structure(flat_type));
            proof {
                lemma_pool_push(pool_r, sub_record, subs_r.n(), subs.n());
                lemma_pool_compose(old(pool)@, pool_r, pool@, n0, subs_r.n(), subs.n());
            }
            let ghost pool1 = pool@;
            let ghost subs1 = *subs;
            let ext_problems = unify_pool_help(subs, pool, rec1.ext, sub_record, fuel - 1);
            proof {
                lemma_pool_compose(old(pool)@, pool1, pool@, n0, subs1.n(), subs.n());
            }
            if ext_problems.len() > 0 {
                return ext_problems;
            }
            let ghost pool2 = pool@;
            let ghost subs2 = *subs;
            let tag_problems = unify_shared_tags(
                subs,
                pool,
                ctx,
                shared_tags,
                TagMap::new(),
                sub_record,
                recursion_var,
                fuel,
            );
            proof {
                lemma_pool_compose(old(pool)@, pool2, pool@, n0, subs2.n(), subs.n());
            }
            tag_problems
        }
    } else if unique_tags2.is_empty() {
        proof {
            if rows_agree {
                lemma_map_of_index(unique_tags1.kseq(), 0);
                assert(false);
            }
            if disjoint_closed {
                lemma_map_of_dom(
                    unique_tags2.kseq(),
                    choose|k: TagName| rec2.tags@.dom().contains(k),
                );
                assert(false);
            }
        }
        let flat_type = FlatType::TagUnion(unique_tags1, rec1.ext);
        proof {
            lemma_content_ok_mono(
                ContentV::Structure(flat_type@),
                subs.n(),
                subs.n() + 1,
            );
        }
        let sub_record = fresh(subs, pool, ctx, Content::Structure(flat_type));
        proof {
            lemma_pool_push(pool_r, sub_record, subs_r.n(), subs.n());
            lemma_pool_compose(old(pool)@, pool_r, pool@, n0, subs_r.n(), subs.n());
        }
        let ghost pool1 = pool@;
        let ghost subs1 = *subs;
        let ext_problems = unify_pool_help(subs, pool, sub_record, rec2.ext, fuel - 1);
        proof {
            lemma_pool_compose(old(pool)@, pool1, pool@, n0, subs1.n(), subs.n());
        }
        if ext_problems.len() > 0 {
            return ext_problems;
        }
        let ghost pool2 = pool@;
        let ghost subs2 = *subs;
        let tag_problems = unify_shared_tags(
            subs,
            pool,
            ctx,
            shared_tags,
            TagMap::new(),
            sub_record,
            recursion_var,
            fuel,
        );
        proof {
            lemma_pool_compose(old(pool)@, pool2, pool@, n0, subs2.n(), subs.n());
        }
        tag_problems
    } else {
        proof {
            if rows_agree {
                lemma_map_of_index(unique_tags1.kseq(), 0);
                assert(false);
            }
        }
        let other_tags = tag_union(unique_tags1.clone(), &unique_tags2);
        proof {
            assert forall|k: TagName| #[trigger] other_tags@.dom().contains(k) implies vars_ok(
                other_tags@[k],
                n0,
            ) by {
                assert(other_tags@ == unique_tags2@.union_prefer_right(unique_tags1@));
            }
        }
        let ext = fresh(subs, pool, ctx, Content::FlexVar(None));
        proof {
            lemma_pool_push(pool_r, ext, subs_r.n(), subs.n());
            lemma_pool_compose(old(pool)@, pool_r, pool@, n0, subs_r.n(), subs.n());
        }
        let ghost u1v = unique_tags1@;
        let flat_type1 = FlatType::TagUnion(unique_tags1, ext);
        let flat_type2 = FlatType::TagUnion(unique_tags2, ext);
        proof {
            lemma_content_ok_mono(
                ContentV::Structure(flat_type1@),
                subs.n(),
                subs.n() + 1,
            );
        }
        let ghost pool1 = pool@;
        let ghost subs1 = *subs;
        let sub1 = fresh(subs, pool, ctx, Content::Structure(flat_type1));
        proof {
            lemma_pool_push(pool1, sub1, subs1.n(), subs.n());
            lemma_pool_compose(old(pool)@, pool1, pool@, n0, subs1.n(), subs.n());
            lemma_content_ok_mono(
                ContentV::Structure(flat_type2@),
                subs1.n(),
                subs.n() + 1,
            );
        }
        let ghost pool2 = pool@;
        let ghost subs2 = *subs;
        let sub2 = fresh(subs, pool, ctx, Content::Structure(flat_type2));
        proof {
            lemma_pool_push(pool2, sub2, subs2.n(), subs.n());
            lemma_pool_compose(old(pool)@, pool2, pool@, n0, subs2.n(), subs.n());
            if disjoint_closed {
                // The three fresh variables leave every existing class as it
                // was, so both extension contents survive to this point.
                assert(subs.desc_at(rec1.ext) == old(subs).desc_at(rec1.ext));
                assert(subs.desc_at(rec2.ext) == old(subs).desc_at(rec2.ext));
                assert(subs.content_at(sub1) == ContentV::Structure(flat_type1@));
                assert(subs.content_at(sub2) == ContentV::Structure(flat_type2@));
            }
        }
        // For clearer mismatches, the extension unifications are rolled back
        // when either fails: the report then shows the two original rows
        // rather than their merged superset.
        let ghost n_snap = subs.n();
        let snapshot = subs.snapshot();
        let ghost pool_snap = pool@;
        let pool_len = pool.len();
        let ghost subs3 = *subs;
        let ext1_problems = unify_pool_help(subs, pool, rec1.ext, sub2, fuel - 1);
        proof {
            lemma_pool_compose(old(pool)@, pool_snap, pool@, n0, subs3.n(), subs.n());
            if fuel >= 2 && disjoint_closed {
                // The flex extension absorbs the fresh row, so the first
                // extension unification succeeds and every other class is
                // left as it was.
                assert(subs3.content_at(rec1.ext) is FlexVar);
                assert(subs3.content_at(sub2) == ContentV::Structure(flat_type2@));
                assert(ext1_problems@.len() == 0);
                crate::subs::lemma_root_bounds(subs3@, rec2.ext as int);
                assert(!subs3.equiv(rec2.ext, rec1.ext)) by {
                    if subs3.equiv(rec2.ext, rec1.ext) {
                        assert(subs3.desc_at(rec2.ext) == subs3.desc_at(rec1.ext));
                    }
                }
                assert(subs3.root_spec(sub1) == sub1 as int);
                assert(subs3.root_spec(sub2) == sub2 as int);
                assert(!subs3.equiv(rec2.ext, sub2));
                assert(!subs3.equiv(sub1, rec1.ext)) by {
                    crate::subs::lemma_root_bounds(subs3@, rec1.ext as int);
                }
                assert(!subs3.equiv(sub1, sub2));
                if !subs3.equiv(rec1.ext, sub2) {
                    assert(subs.desc_at(sub1) == subs3.desc_at(sub1));
                    assert(subs.root_spec(sub1) == subs3.root_spec(sub1));
                    assert(subs.desc_at(rec2.ext) == subs3.desc_at(rec2.ext));
                    assert(subs.root_spec(rec2.ext) == subs3.root_spec(rec2.ext));
                } else {
                    assert(subs@ == subs3@);
                }
                assert(subs.content_at(sub1) == ContentV::Structure(flat_type1@));
                assert(subs.content_at(rec2.ext) == ContentV::Structure(
                    FlatTypeV::EmptyTagUnion,
                ));
                assert(subs.root_spec(sub1) == sub1 as int);
                assert(subs.root_spec(rec2.ext) <= rec2.ext as int);
            }
        }
        if ext1_problems.len() > 0 {
            // A variable registered after the snapshot is rolled back with
            // it, so the pool is cut back to the snapshot as well.
            subs.rollback_to(snapshot);
            pool.truncate(pool_len);
            proof {
                assert(pool@ =~= pool_snap);
            }
            return ext1_problems;
        }
        let ghost pool4 = pool@;
        let ghost subs4 = *subs;
        let ext2_problems = unify_pool_help(subs, pool, sub1, rec2.ext, fuel - 1);
        proof {
            lemma_pool_compose(old(pool)@, pool4, pool@, n0, subs4.n(), subs.n());
            if fuel >= 2 && disjoint_closed {
                // A populated fresh row against the closed extension is a
                // decided mismatch.
                assert(!subs4.equiv(sub1, rec2.ext));
                assert(!(u1v.dom() =~= Set::<TagName>::empty())) by {
                    let k1 = choose|k: TagName| rec1.tags@.dom().contains(k);
                    assert(u1v.dom().contains(k1));
                }
                assert(shallow_verdict(
                    subs4.content_at(sub1),
                    subs4.content_at(rec2.ext),
                ) == Some(false));
                lemma_verdict_sound(subs4, *subs, sub1, rec2.ext, ext2_problems@.len() == 0);
                assert(ext2_problems@.len() > 0);
            }
        }
        if ext2_problems.len() > 0 {
            subs.rollback_to(snapshot);
            pool.truncate(pool_len);
            proof {
                assert(pool@ =~= pool_snap);
                if fuel >= 2 && disjoint_closed {
                    assert(subs@ == subs3@);
                    assert(subs.desc_at(rec1.ext) == old(subs).desc_at(rec1.ext));
                }
            }
            return ext2_problems;
        }
        subs.commit_snapshot(snapshot);
        let ghost pool5 = pool@;
        let ghost subs5 = *subs;
        let tag_problems = unify_shared_tags(
            subs,
            pool,
            ctx,
            shared_tags,
            other_tags,
            ext,
            recursion_var,
            fuel,
        );
        proof {
            lemma_pool_compose(old(pool)@, pool5, pool@, n0, subs5.n(), subs.n());
        }
        tag_problems
    }
}

/// Unifies the payloads of every shared tag, position by position; a tag
/// whose arities differ contributes no match. When a recursion variable is
/// present, a payload that reaches it against a concrete partner first has
/// the recursive union unfolded one level by explicit substitution.
#[verifier::rlimit(30)]
fn unify_shared_tags(
    subs: &mut Subs,
    pool: &mut Pool,
    ctx: &Context,
    shared_tags: Vec<(TagName, Vec<Variable>, Vec<Variable>)>,
    other_tags: TagMap,
    ext: Variable,
    recursion_var: Option<Variable>,
    fuel: u64,
) -> (out: Outcome)
    requires
        old(subs).wf(),
        fuel >= 1,
        ctx.first_spec() < old(subs).n(),
        ctx.second_spec() < old(subs).n(),
        shared_tags_ok(shared_tags@, old(subs).n()),
        forall|x: int, y: int| 0 <= x < y < shared_tags@.len() ==> (#[trigger] shared_tags@[x]).0
            != (#[trigger] shared_tags@[y]).0,
        other_tags.wf(),
        tags_ok(other_tags@, old(subs).n()),
        ext < old(subs).n(),
        (recursion_var matches Some(v) ==> v < old(subs).n()),
    ensures
        final(subs).wf(),
        old(subs).n() <= final(subs).n(),
        pool_lower_ok(old(pool)@, final(pool)@, old(subs).n()),
        pool_upper_ok(old(pool)@, final(pool)@, final(subs).n()),
        out@.len() == 0 ==> final(subs).equiv(ctx.first_spec(), ctx.second_spec()) && (if
        recursion_var is Some {
            is_recursive_tag_union_structure(final(subs).content_at(ctx.first_spec()))
        } else {
            is_tag_union_structure(final(subs).content_at(ctx.first_spec()))
        }),
        (exists|i: int|
            0 <= i < shared_tags@.len() && (#[trigger] shared_tags@[i]).1@.len() != (
            shared_tags@[i]).2@.len()) ==> out@.len() > 0,
        recursion_var is None && shared_tags_agree(*old(subs), shared_tags@) ==> out@.len() == 0,
        (recursion_var is None && shared_tags_agree(*old(subs), shared_tags@) && (old(
            subs,
        ).content_at(ext) is FlexVar || old(subs).content_at(ext) == ContentV::Structure(
            FlatTypeV::EmptyTagUnion,
        ))) ==> (final(subs).content_at(ctx.first_spec()) matches ContentV::Structure(
            FlatTypeV::TagUnion(m, new_ext),
        ) && {
            &&& (forall|i: int|
                0 <= i < shared_tags@.len() ==> m.dom().contains((#[trigger] shared_tags@[i]).0)
                    && m[(shared_tags@[i]).0] == (shared_tags@[i]).1@)
            &&& (forall|k: TagName| #[trigger] other_tags@.dom().contains(k)
                ==> m.dom().contains(k))
            &&& (forall|k: TagName| #[trigger] m.dom().contains(k) ==> (exists|i: int|
                0 <= i < shared_tags@.len() && (#[trigger] shared_tags@[i]).0 == k)
                || other_tags@.dom().contains(k))
            &&& new_ext == (if old(subs).content_at(ext) is FlexVar {
                ext
            } else {
                EMPTY_TAG_UNION_VAR
            })
        }),
        out@.len() == 0 ==> (tag_row_of(final(subs).content_at(ctx.first_spec())) matches Some(m)
            && forall|i: int|
            0 <= i < shared_tags@.len() ==> m.dom().contains((#[trigger] shared_tags@[i]).0)),
        out@.len() == 0 ==> (recursion_var matches Some(rv) ==> (final(subs).content_at(
            ctx.first_spec(),
        ) matches ContentV::Structure(FlatTypeV::RecursiveTagUnion(rec, _, _)) && rec == rv)),
    decreases fuel, 5int,
{
    let ghost n0 = old(subs).n();
    let mut matching_tags = TagMap::new();
    let mut matched: usize = 0;
    let num_shared_tags = shared_tags.len();
    let mut ti: usize = 0;
    while ti < num_shared_tags
        invariant
            fuel >= 1,
            subs.wf(),
            n0 <= subs.n(),
            n0 == old(subs).n(),
            ctx.first_spec() < n0,
            ctx.second_spec() < n0,
            ti <= num_shared_tags,
            num_shared_tags == shared_tags@.len(),
            shared_tags_ok(shared_tags@, n0),
            (recursion_var matches Some(v) ==> v < n0),
            matching_tags.wf(),
            tags_ok(matching_tags@, subs.n()),
            matched <= ti,
            forall|x: int, y: int| 0 <= x < y < shared_tags@.len() ==> (
            #[trigger] shared_tags@[x]).0 != (#[trigger] shared_tags@[y]).0,
            matched == ti ==> forall|j: int|
                0 <= j < ti ==> matching_tags@.dom().contains((#[trigger] shared_tags@[j]).0)
                    && matching_tags@[(shared_tags@[j]).0] == (shared_tags@[j]).1@,
            forall|k: TagName| #[trigger] matching_tags@.dom().contains(k) ==> exists|j: int|
                0 <= j < ti && (#[trigger] shared_tags@[j]).0 == k,
            (exists|j: int|
                0 <= j < ti && (#[trigger] shared_tags@[j]).1@.len() != (shared_tags@[j]).2@.len())
                ==> matched < ti,
            recursion_var is None && shared_tags_agree(*old(subs), shared_tags@) ==> subs@ == old(
                subs,
            )@ && matched == ti,
            pool_lower_ok(old(pool)@, pool@, n0),
            pool_upper_ok(old(pool)@, pool@, subs.n()),
        decreases num_shared_tags - ti,
    {
        let name = shared_tags[ti].0;
        let mut matching_vars: Vec<Variable> = Vec::new();
        let actual_len = shared_tags[ti].1.len();
        let expected_len = shared_tags[ti].2.len();
        let k = if actual_len <= expected_len {
            actual_len
        } else {
            expected_len
        };
        let ghost subs_tag = *subs;
        let mut pi: usize = 0;
        while pi < k
            invariant
                fuel >= 1,
                subs.wf(),
                n0 <= subs.n(),
                n0 == old(subs).n(),
                ctx.first_spec() < n0,
                ctx.second_spec() < n0,
                ti < num_shared_tags,
                num_shared_tags == shared_tags@.len(),
                shared_tags_ok(shared_tags@, n0),
                (recursion_var matches Some(v) ==> v < n0),
                pi <= k,
                k <= (shared_tags@[ti as int]).1@.len(),
                k <= (shared_tags@[ti as int]).2@.len(),
                matching_vars@.len() <= pi,
                matching_vars@.len() == pi ==> matching_vars@ == (shared_tags@[ti as int]).1@.take(
                    pi as int,
                ),
                vars_ok(matching_vars@, n0),
                matching_tags.wf(),
                tags_ok(matching_tags@, subs.n()),
                matched <= ti,
                forall|x: int, y: int| 0 <= x < y < shared_tags@.len() ==> (
                #[trigger] shared_tags@[x]).0 != (#[trigger] shared_tags@[y]).0,
                matched == ti ==> forall|j: int|
                    0 <= j < ti ==> matching_tags@.dom().contains((#[trigger] shared_tags@[j]).0)
                        && matching_tags@[(shared_tags@[j]).0] == (shared_tags@[j]).1@,
                forall|k: TagName| #[trigger] matching_tags@.dom().contains(k) ==> exists|j: int|
                    0 <= j < ti && (#[trigger] shared_tags@[j]).0 == k,
                (exists|j: int|
                    0 <= j < ti && (#[trigger] shared_tags@[j]).1@.len() != (
                    shared_tags@[j]).2@.len()) ==> matched < ti,
                recursion_var is None && shared_tags_agree(*old(subs), shared_tags@) ==> subs@
                    == old(subs)@ && matched == ti && matching_vars@.len() == pi,
                pool_lower_ok(old(pool)@, pool@, n0),
                pool_upper_ok(old(pool)@, pool@, subs.n()),
            decreases k - pi,
        {
            let actual = shared_tags[ti].1[pi];
            let expected = shared_tags[ti].2[pi];
            let mut problems: Vec<Mismatch> = Vec::new();
            // A uniqueness wrapper is peeled: when both sides are the
            // distinguished `Apply` head, the recursion logic works on the
            // inner payloads.
            let de = subs.get(expected);
            let da = subs.get(actual);
            let attr_wrapped = match (de.content, da.content) {
                (
                    Content::Structure(FlatType::Apply(se, eargs)),
                    Content::Structure(FlatType::Apply(sa, aargs)),
                ) => {
                    if se == ATTR_ATTR && sa == ATTR_ATTR && eargs.len() >= 2 && aargs.len() >= 2 {
                        proof {
                            assert(vars_ok(eargs@, subs.n()));
                            assert(vars_ok(aargs@, subs.n()));
                        }
                        Some((eargs[0], eargs[1], aargs[0], aargs[1]))
                    } else {
                        None
                    }
                },
                _ => None,
            };
            let ghost pool_p = pool@;
            let ghost subs_p = *subs;
            match recursion_var {
                Some(rvar) => {
                    match attr_wrapped {
                        None => {
                            if subs.equivalent(expected, rvar) {
                                if subs.equivalent(actual, rvar) {
                                    let mut more = unify_pool_help(
                                        subs,
                                        pool,
                                        expected,
                                        actual,
                                        fuel - 1,
                                    );
                                    problems.append(&mut more);
                                } else {
                                    let mut more = unify_pool_help(
                                        subs,
                                        pool,
                                        actual,
                                        ctx.second,
                                        fuel - 1,
                                    );
                                    problems.append(&mut more);
                                    // Required for layout generation, at the
                                    // price of a less precise mismatch.
                                    let ghost pool_q = pool@;
                                    let ghost subs_q = *subs;
                                    let mut more2 = unify_pool_help(
                                        subs,
                                        pool,
                                        expected,
                                        actual,
                                        fuel - 1,
                                    );
                                    proof {
                                        lemma_pool_compose(
                                            pool_p,
                                            pool_q,
                                            pool@,
                                            subs_p.n(),
                                            subs_q.n(),
                                            subs.n(),
                                        );
                                    }
                                    problems.append(&mut more2);
                                }
                            } else if is_structure(actual, subs) {
                                // The recursion variable is hidden behind a
                                // structure, so the recursive union is
                                // unfolded one level into the expected side;
                                // substituting under a plain flex or rigid
                                // partner would unfold without end.
                                let _ = subs.explicit_substitute(rvar, ctx.second, expected);
                                let mut more = unify_pool_help(
                                    subs,
                                    pool,
                                    actual,
                                    expected,
                                    fuel - 1,
                                );
                                problems.append(&mut more);
                            } else {
                                let mut more = unify_pool_help(
                                    subs,
                                    pool,
                                    actual,
                                    expected,
                                    fuel - 1,
                                );
                                problems.append(&mut more);
                            }
                        },
                        Some((_expected_uvar, inner_expected, _actual_uvar, inner_actual)) => {
                            if subs.equivalent(inner_expected, rvar) {
                                if subs.equivalent(inner_actual, rvar) {
                                    let mut more = unify_pool_help(
                                        subs,
                                        pool,
                                        actual,
                                        expected,
                                        fuel - 1,
                                    );
                                    problems.append(&mut more);
                                } else {
                                    let mut more = unify_pool_help(
                                        subs,
                                        pool,
                                        inner_actual,
                                        ctx.second,
                                        fuel - 1,
                                    );
                                    problems.append(&mut more);
                                    let ghost pool_q = pool@;
                                    let ghost subs_q = *subs;
                                    let mut more2 = unify_pool_help(
                                        subs,
                                        pool,
                                        expected,
                                        actual,
                                        fuel - 1,
                                    );
                                    proof {
                                        lemma_pool_compose(
                                            pool_p,
                                            pool_q,
                                            pool@,
                                            subs_p.n(),
                                            subs_q.n(),
                                            subs.n(),
                                        );
                                    }
                                    problems.append(&mut more2);
                                }
                            } else if is_structure(inner_actual, subs) {
                                let _ = subs.explicit_substitute(rvar, ctx.second, inner_expected);
                                let mut more = unify_pool_help(
                                    subs,
                                    pool,
                                    actual,
                                    expected,
                                    fuel - 1,
                                );
                                problems.append(&mut more);
                            } else {
                                let mut more = unify_pool_help(
                                    subs,
                                    pool,
                                    actual,
                                    expected,
                                    fuel - 1,
                                );
                                problems.append(&mut more);
                            }
                        },
                    }
                },
                None => {
                    let mut more = unify_pool_help(subs, pool, actual, expected, fuel - 1);
                    problems.append(&mut more);
                },
            }
            proof {
                lemma_pool_compose(old(pool)@, pool_p, pool@, n0, subs_p.n(), subs.n());
                assert forall|kk: TagName| #[trigger] matching_tags@.dom().contains(kk) implies
                    vars_ok(matching_tags@[kk], subs.n()) by {
                    assert(vars_ok(matching_tags@[kk], subs_p.n()));
                }
            }
            if problems.len() == 0 {
                matching_vars.push(actual);
                proof {
                    if matching_vars@.len() == pi + 1 {
                        assert(matching_vars@ =~= (shared_tags@[ti as int]).1@.take(pi + 1));
                    }
                }
            }
            pi = pi + 1;
        }
        // The arity check runs after unification so the mismatch carries
        // more information.
        if actual_len == expected_len && actual_len == matching_vars.len() {
            proof {
                assert(matching_vars@ =~= (shared_tags@[ti as int]).1@);
                assert forall|j: int| 0 <= j < ti implies (#[trigger] shared_tags@[j]).0 != name by {
                    assert((shared_tags@[j]).0 != (shared_tags@[ti as int]).0);
                }
            }
            matching_tags.insert(name, matching_vars);
            matched = matched + 1;
        }
        ti = ti + 1;
    }
    if matched == num_shared_tags {
        // Merge tags pulled in through the extension into this union.
        let mut chased = TagMap::new();
        let new_ext_var = match chase_ext_tag_union(subs, ext, &mut chased) {
            Ok(()) => EMPTY_TAG_UNION_VAR,
            Err(new_ext) => new_ext,
        };
        let base = tag_union(matching_tags, &other_tags);
        let new_tags = tag_union(chased, &base);
        proof {
            assert forall|kk: TagName| #[trigger] new_tags@.dom().contains(kk) implies vars_ok(
                new_tags@[kk],
                subs.n(),
            ) by {
                assert(base@ == other_tags@.union_prefer_right(matching_tags@));
                assert(new_tags@ == base@.union_prefer_right(chased@));
            }
        }
        let flat_type = match recursion_var {
            Some(rec) => FlatType::RecursiveTagUnion(rec, new_tags, new_ext_var),
            None => FlatType::TagUnion(new_tags, new_ext_var),
        };
        let ghost pool_mid = pool@;
        let ghost subs_mid = *subs;
        let out = merge(subs, ctx, Content::Structure(flat_type));
        proof {
            lemma_pool_compose(old(pool)@, pool_mid, pool@, n0, subs_mid.n(), subs.n());
        }
        out
    } else {
        vec![Mismatch::TypeMismatch]
    }
}

// ---------------------------------------------------------------------------
// The public entries.
// ---------------------------------------------------------------------------

/// The re-entrant form of the unifier, for recursive algorithms that already
/// own a pool: an empty mismatch list means the variables were unified.
pub fn unify_pool(subs: &mut Subs, pool: &mut Pool, var1: Variable, var2: Variable) -> (out:
    Outcome)
    requires
        old(subs).wf(),
        var1 < old(subs).n(),
        var2 < old(subs).n(),
    ensures
        final(subs).wf(),
        old(subs).n() <= final(subs).n(),
        pool_lower_ok(old(pool)@, final(pool)@, old(subs).n()),
        pool_upper_ok(old(pool)@, final(pool)@, final(subs).n()),
        old(subs).equiv(var1, var2) ==> final(pool)@ == old(pool)@,
        unify_outcome_ok(*old(subs), *final(subs), var1, var2, out@.len() == 0),
        alias_expansion_ok(*old(subs), old(subs).content_at(var1), var2, out@.len() == 0),
        record_vs_empty_ok(*old(subs), var1, var2, out@.len() == 0),
        components_outcome_ok(
            *old(subs),
            old(subs).content_at(var1),
            old(subs).content_at(var2),
            out@.len() == 0,
        ),
        structure_vs_alias_ok(*old(subs), var1, var2, out@.len() == 0),
        ((old(subs).content_at(var1) matches ContentV::Structure(f1) && (old(subs).content_at(
            var2,
        ) matches ContentV::Structure(f2) && disjoint_closed_tag_rows(*old(subs), f1, f2)))
            ==> out@.len() > 0),
{
    unify_pool_help(subs, pool, var1, var2, UNIFY_FUEL)
}

/// The top-level entry: decides whether the two variables' types can be made
/// equal. Equivalent variables succeed with an empty pool and an untouched
/// store; a flex side absorbs the other content; a rigid side unifies only
/// with flex; `Error` propagates as success; and on failure both variables
/// are poisoned with `Error` and projected for diagnostics.
pub fn unify(subs: &mut Subs, var1: Variable, var2: Variable) -> (r: Unified)
    requires
        old(subs).wf(),
        var1 < old(subs).n(),
        var2 < old(subs).n(),
    ensures
        final(subs).wf(),
        old(subs).n() <= final(subs).n(),
        !(r is BadType),
        (r matches Unified::Success(pool) ==> forall|i: int|
            0 <= i < pool@.len() ==> old(subs).n() <= #[trigger] pool@[i] < final(subs).n()),
        old(subs).equiv(var1, var2) ==> final(subs)@ == old(subs)@ && (r matches Unified::Success(
            pool,
        ) && pool@.len() == 0),
        r is Failure ==> final(subs).equiv(var1, var2) && final(subs).content_at(var1)
            == ContentV::Error,
        alias_expansion_ok(*old(subs), old(subs).content_at(var1), var2, r is Success),
        record_vs_empty_ok(*old(subs), var1, var2, r is Success),
        components_outcome_ok(
            *old(subs),
            old(subs).content_at(var1),
            old(subs).content_at(var2),
            r is Success,
        ),
        structure_vs_alias_ok(*old(subs), var1, var2, r is Success),
        ((old(subs).content_at(var1) matches ContentV::Structure(f1) && (old(subs).content_at(
            var2,
        ) matches ContentV::Structure(f2) && disjoint_closed_tag_rows(*old(subs), f1, f2)))
            ==> r is Failure),
        !old(subs).equiv(var1, var2) ==> ({
            let c1 = old(subs).content_at(var1);
            let c2 = old(subs).content_at(var2);
            &&& ((c1 is Error || c2 is Error) ==> r is Success && final(subs).equiv(var1, var2)
                && final(subs).content_at(var1) == ContentV::Error)
            &&& ((c1 is RigidVar && (c2 is RigidVar || c2 is Structure || c2 is Alias)) ==> (r
            matches Unified::Failure(_p1, t1, t2) && err_type_matches(c1, t1) && err_type_matches(
                c2,
                t2,
            )))
            &&& ((c1 is Structure && c2 is RigidVar) ==> (r matches Unified::Failure(_p2, t3, t4)
                && err_type_matches(c1, t3) && err_type_matches(c2, t4)))
            &&& ((c1 is FlexVar && !(c2 is Error)) ==> r is Success && final(subs).equiv(var1, var2)
                && final(subs).content_at(var1) == (if c2 == ContentV::FlexVar(None::<Lowercase>) {
                c1
            } else {
                c2
            }))
            &&& (((c1 is RigidVar || c1 is Structure || c1 is Alias) && c2 is FlexVar)
                ==> r is Success && final(subs).equiv(var1, var2) && final(subs).content_at(var1)
                == c1)
            &&& (c1 matches ContentV::Alias(s1, args1, _r1) ==> (c2 matches ContentV::Alias(
                s2,
                args2,
                _r2,
            ) ==> {
                &&& (s1 == s2 && args1.len() != args2.len() ==> r is Failure)
                &&& (s1 == s2 && r is Success ==> final(subs).equiv(var1, var2)
                    && final(subs).content_at(var1) == c2)
            }))
            &&& (c1 matches ContentV::Structure(f1) ==> (c2 matches ContentV::Structure(f2) ==> {
                &&& (flat_verdict(f1, f2) matches Some(v) ==> (r is Success) == v)
                &&& (f1 is EmptyRecord && f2 is EmptyRecord ==> r is Success
                    && final(subs).equiv(var1, var2) && final(subs).content_at(var1)
                    == ContentV::Structure(FlatTypeV::EmptyRecord))
                &&& (f1 is EmptyTagUnion && f2 is EmptyTagUnion ==> r is Success
                    && final(subs).equiv(var1, var2) && final(subs).content_at(var1)
                    == ContentV::Structure(FlatTypeV::EmptyTagUnion))
                &&& (f1 is Apply ==> (f2 matches FlatTypeV::Apply(s2, a2) ==> (r is Success
                    ==> final(subs).equiv(var1, var2) && final(subs).content_at(var1)
                    == ContentV::Structure(FlatTypeV::Apply(s2, a2)))))
                &&& (f1 is Func ==> (f2 matches FlatTypeV::Func(a2, c2v, r2) ==> (r is Success
                    ==> final(subs).equiv(var1, var2) && final(subs).content_at(var1)
                    == ContentV::Structure(FlatTypeV::Func(a2, c2v, r2)))))
                &&& (f1 is Boolean && f2 is Boolean && r is Success ==> final(subs).equiv(
                    var1,
                    var2,
                ) && (final(subs).content_at(var1) matches ContentV::Structure(
                    FlatTypeV::Boolean(_),
                )))
                &&& (f1 matches FlatTypeV::Boolean(b1) ==> (f2 matches FlatTypeV::Boolean(b2)
                    ==> {
                    &&& (simplify_bool_spec(*old(subs), b1) is Shared && simplify_bool_spec(
                        *old(subs),
                        b2,
                    ) is Shared ==> r is Success && final(subs).equiv(var1, var2)
                        && final(subs).content_at(var1) == c1)
                    &&& ((simplify_bool_spec(*old(subs), b1) is Shared && simplify_bool_spec(
                        *old(subs),
                        b2,
                    ) is Container) || (simplify_bool_spec(*old(subs), b1) is Container
                        && simplify_bool_spec(*old(subs), b2) is Shared) ==> (r is Success
                        ==> final(subs).equiv(var1, var2) && final(subs).content_at(var1)
                        == ContentV::Structure(FlatTypeV::Boolean(BoolV::Shared))))
                    &&& (simplify_bool_spec(*old(subs), b1) matches BoolV::Container(cv1, _m1)
                        ==> (simplify_bool_spec(*old(subs), b2) is Container ==> (r is Success
                        ==> (final(subs).content_at(var1) matches ContentV::Structure(
                        FlatTypeV::Boolean(BoolV::Container(cc, _mm)),
                    ) && cc == cv1))))
                }))
                &&& (f1 matches FlatTypeV::Record(fs1, _x1) ==> (f2 matches FlatTypeV::Record(
                    fs2,
                    _x2,
                ) ==> {
                    &&& ((exists|k: Lowercase|
                        #![trigger fs1[k], fs2[k]]
                        fs1.dom().contains(k) && fs2.dom().contains(k) && spec_combine_fields(
                            fs1[k],
                            fs2[k],
                        ) is None) ==> r is Failure)
                    &&& (r is Success ==> final(subs).equiv(var1, var2)
                        && (final(subs).content_at(var1) matches ContentV::Structure(
                        FlatTypeV::Record(m, _),
                    ) && forall|k: Lowercase|
                        fs1.dom().contains(k) && #[trigger] fs2.dom().contains(k)
                            ==> m.dom().contains(k)))
                }))
                &&& (f1 matches FlatTypeV::TagUnion(ts1, _y1) ==> (f2 matches FlatTypeV::TagUnion(
                    ts2,
                    _y2,
                ) ==> {
                    &&& ((exists|k: TagName|
                        #![trigger ts1[k], ts2[k]]
                        ts1.dom().contains(k) && ts2.dom().contains(k) && ts1[k].len()
                            != ts2[k].len()) ==> r is Failure)
                    &&& (r is Success ==> final(subs).equiv(var1, var2) && (tag_row_of(
                        final(subs).content_at(var1),
                    ) matches Some(m) && forall|k: TagName|
                        ts1.dom().contains(k) && #[trigger] ts2.dom().contains(k)
                            ==> m.dom().contains(k)))
                }))
                &&& ((f1 is RecursiveTagUnion || f2 is RecursiveTagUnion) && r is Success
                    ==> final(subs).equiv(var1, var2) && is_recursive_tag_union_structure(
                    final(subs).content_at(var1),
                ))
                &&& (f1 matches FlatTypeV::RecursiveTagUnion(rv1, _t1, _e1) ==> (r is Success
                    ==> (final(subs).content_at(var1) matches ContentV::Structure(
                    FlatTypeV::RecursiveTagUnion(rec, _, _),
                ) && rec == rv1)))
                &&& (f1 is TagUnion ==> (f2 matches FlatTypeV::RecursiveTagUnion(rv2, _t2, _e2)
                    ==> (r is Success ==> (final(subs).content_at(var1)
                    matches ContentV::Structure(FlatTypeV::RecursiveTagUnion(rec, _, _)) && rec
                    == rv2))))
            }))
        }),
{
    let mut vars: Vec<Variable> = Vec::new();
    let mismatches = unify_pool(subs, &mut vars, var1, var2);
    if mismatches.len() == 0 {
        Unified::Success(vars)
    } else {
        let (type1, mut problems) = subs.var_to_error_type(var1);
        let (type2, mut problems2) = subs.var_to_error_type(var2);
        problems.append(&mut problems2);
        subs.union(
            var1,
            var2,
            Descriptor { content: Content::Error, rank: 0, mark: MARK_NONE, copy: None },
        );
        if problems.len() > 0 {
            Unified::BadType(vars, problems.remove(0))
        } else {
            Unified::Failure(vars, type1, type2)
        }
    }
}

} // verus!
