//! The shared type store: a union-find arena of descriptors.
//!
//! Each slot either redirects to an earlier slot of the same equivalence
//! class or is the class's root and carries its descriptor. A redirect always
//! points to a strictly smaller index, so chasing roots terminates.

use vstd::prelude::*;

use crate::collections::{
    distinct_keys, lemma_map_of_dom, lemma_map_of_index, lemma_varset_card, map_of, FieldMap,
    TagMap, VarSet,
};
use crate::types::{
    alias_args_ok, bool_ok, content_ok, content_wf, fields_ok, lemma_content_ok_mono, members_ok,
    tags_ok, vars_ok, Bool, BoolV, Content, ContentV, Descriptor, DescriptorV, ErrorField,
    ErrorType, FlatType, FlatTypeV, Lowercase, Problem, RecordField, TagName, TypeExt, Variable,
    MARK_NONE,
};

verus! {

broadcast use vstd::set::group_set_axioms, vstd::seq::group_seq_axioms;

/// The pre-interned variable whose content is the empty record.
pub const EMPTY_RECORD_VAR: Variable = 0;

/// The pre-interned variable whose content is the empty tag union.
pub const EMPTY_TAG_UNION_VAR: Variable = 1;

/// One arena slot.
#[derive(Debug, PartialEq, Eq)]
pub enum Slot {
    /// A link to an earlier slot of the same class.
    Redirect(Variable),
    /// The root of a class, carrying its descriptor.
    Root(Descriptor),
}

/// View of a slot.
#[verifier::ext_equal]
pub enum SlotV {
    Redirect(Variable),
    Root(DescriptorV),
}

impl View for Slot {
    type V = SlotV;

    open spec fn view(&self) -> SlotV {
        match self {
            Slot::Redirect(v) => SlotV::Redirect(*v),
            Slot::Root(d) => SlotV::Root(d@),
        }
    }
}

/// The keyed collections inside the slot's descriptor are well formed.
pub open spec fn slot_exec_wf(s: &Slot) -> bool {
    match s {
        Slot::Root(d) => content_wf(&d.content),
        Slot::Redirect(_) => true,
    }
}

impl Clone for Slot {
    /// The copy has the same view and the same well-formed collections.
    fn clone(&self) -> (r: Self)
        ensures
            r@ == self@,
            slot_exec_wf(self) ==> slot_exec_wf(&r),
    {
        match self {
            Slot::Redirect(v) => Slot::Redirect(*v),
            Slot::Root(d) => Slot::Root(d.clone()),
        }
    }
}

// ---------------------------------------------------------------------------
// Roots of the union-find graph, at the specification level.
// ---------------------------------------------------------------------------

/// The root that the slot at `v` resolves to: redirects are followed as long
/// as they point strictly downwards.
pub open spec fn seq_root_of(s: Seq<SlotV>, v: int) -> int
    decreases v,
{
    if 0 <= v < s.len() {
        match s[v] {
            SlotV::Redirect(p) => if (p as int) < v {
                seq_root_of(s, p as int)
            } else {
                v
            },
            SlotV::Root(_) => v,
        }
    } else {
        v
    }
}

/// The slot at `i` is well formed: a redirect points strictly downwards and a
/// root's content mentions only variables of the store.
pub open spec fn slot_wf_at(s: Seq<SlotV>, i: int) -> bool {
    match s[i] {
        SlotV::Redirect(p) => (p as int) < i,
        SlotV::Root(d) => content_ok(d.content, s.len() as int),
    }
}

/// Every slot is well formed.
pub open spec fn seq_wf(s: Seq<SlotV>) -> bool {
    forall|i: int| 0 <= i < s.len() ==> slot_wf_at(s, i)
}

/// In a well-formed store every variable resolves to a root slot at or below
/// its own index.
pub proof fn lemma_root_bounds(s: Seq<SlotV>, v: int)
    requires
        seq_wf(s),
        0 <= v < s.len(),
    ensures
        0 <= seq_root_of(s, v) <= v,
        s[seq_root_of(s, v)] is Root,
    decreases v,
{
    assert(slot_wf_at(s, v));
    match s[v] {
        SlotV::Redirect(p) => {
            lemma_root_bounds(s, p as int);
        },
        SlotV::Root(_) => {},
    }
}

/// Appending a slot does not change the root of any existing variable.
pub proof fn lemma_root_push(s: Seq<SlotV>, slot: SlotV, v: int)
    requires
        0 <= v < s.len(),
    ensures
        seq_root_of(s.push(slot), v) == seq_root_of(s, v),
    decreases v,
{
    match s[v] {
        SlotV::Redirect(p) => {
            if (p as int) < v {
                lemma_root_push(s, slot, p as int);
            }
        },
        SlotV::Root(_) => {},
    }
}

/// Overwriting a root slot with another root does not change any root index.
pub proof fn lemma_root_update1(s: Seq<SlotV>, r: int, d: DescriptorV, v: int)
    requires
        0 <= r < s.len(),
        s[r] is Root,
        0 <= v < s.len(),
    ensures
        seq_root_of(s.update(r, SlotV::Root(d)), v) == seq_root_of(s, v),
    decreases v,
{
    let s2 = s.update(r, SlotV::Root(d));
    if v == r {
    } else {
        match s[v] {
            SlotV::Redirect(p) => {
                if (p as int) < v {
                    lemma_root_update1(s, r, d, p as int);
                }
            },
            SlotV::Root(_) => {},
        }
    }
}

/// Linking root `rb` to root `ra` (with `ra < rb`) and installing a
/// descriptor at `ra` redirects exactly the class of `rb` onto `ra`.
pub proof fn lemma_root_update2(s: Seq<SlotV>, ra: Variable, rb: Variable, d: DescriptorV, v: int)
    requires
        seq_wf(s),
        0 <= (ra as int) < (rb as int) < s.len(),
        s[ra as int] is Root,
        s[rb as int] is Root,
        0 <= v < s.len(),
    ensures
        seq_root_of(
            s.update(rb as int, SlotV::Redirect(ra)).update(ra as int, SlotV::Root(d)),
            v,
        ) == (if seq_root_of(s, v) == rb as int {
            ra as int
        } else {
            seq_root_of(s, v)
        }),
    decreases v,
{
    let s2 = s.update(rb as int, SlotV::Redirect(ra)).update(ra as int, SlotV::Root(d));
    if v == ra as int {
        assert(s2[ra as int] == SlotV::Root(d));
        assert(seq_root_of(s2, ra as int) == ra as int);
    } else if v == rb as int {
        assert(s2[rb as int] == SlotV::Redirect(ra));
        assert(s2[ra as int] == SlotV::Root(d));
        assert(seq_root_of(s2, ra as int) == ra as int);
        assert(seq_root_of(s2, rb as int) == ra as int);
    } else {
        assert(slot_wf_at(s, v));
        match s[v] {
            SlotV::Redirect(p) => {
                lemma_root_update2(s, ra, rb, d, p as int);
            },
            SlotV::Root(_) => {},
        }
    }
}

// ---------------------------------------------------------------------------
// Substitution, at the specification level.
// ---------------------------------------------------------------------------

/// The variable standing for `w` once every variable equivalent to `from` is
/// replaced by `to`.
pub open spec fn subst_var_spec(pre: Subs, from: Variable, to: Variable, w: Variable) -> Variable {
    if pre.equiv(w, from) {
        to
    } else {
        w
    }
}

/// Substitution over a payload list.
pub open spec fn subst_vars_spec(pre: Subs, from: Variable, to: Variable, vs: Seq<Variable>) -> Seq<
    Variable,
> {
    vs.map_values(|w: Variable| subst_var_spec(pre, from, to, w))
}

/// Substitution inside a record field.
pub open spec fn subst_field_spec(pre: Subs, from: Variable, to: Variable, f: RecordField)
    -> RecordField {
    match f {
        RecordField::Required(v) => RecordField::Required(subst_var_spec(pre, from, to, v)),
        RecordField::Demanded(v) => RecordField::Demanded(subst_var_spec(pre, from, to, v)),
        RecordField::Optional(v) => RecordField::Optional(subst_var_spec(pre, from, to, v)),
    }
}

/// Substitution over a record row.
pub open spec fn subst_fields_spec(
    pre: Subs,
    from: Variable,
    to: Variable,
    m: Map<Lowercase, RecordField>,
) -> Map<Lowercase, RecordField> {
    Map::new(|k: Lowercase| m.dom().contains(k), |k: Lowercase| subst_field_spec(pre, from, to, m[k]))
}

/// Substitution over a tag row.
pub open spec fn subst_tags_spec(
    pre: Subs,
    from: Variable,
    to: Variable,
    m: Map<TagName, Seq<Variable>>,
) -> Map<TagName, Seq<Variable>> {
    Map::new(|k: TagName| m.dom().contains(k), |k: TagName| subst_vars_spec(pre, from, to, m[k]))
}

/// Substitution inside a uniqueness boolean.
pub open spec fn subst_bool_spec(pre: Subs, from: Variable, to: Variable, b: BoolV) -> BoolV {
    match b {
        BoolV::Shared => BoolV::Shared,
        BoolV::Container(c, ms) => BoolV::Container(
            subst_var_spec(pre, from, to, c),
            ms.map(|v: Variable| subst_var_spec(pre, from, to, v)),
        ),
    }
}

/// Substitution inside a flat type.
pub open spec fn subst_flat_spec(pre: Subs, from: Variable, to: Variable, ft: FlatTypeV)
    -> FlatTypeV {
    match ft {
        FlatTypeV::EmptyRecord => FlatTypeV::EmptyRecord,
        FlatTypeV::EmptyTagUnion => FlatTypeV::EmptyTagUnion,
        FlatTypeV::Record(fields, ext) => FlatTypeV::Record(
            subst_fields_spec(pre, from, to, fields),
            subst_var_spec(pre, from, to, ext),
        ),
        FlatTypeV::TagUnion(tags, ext) => FlatTypeV::TagUnion(
            subst_tags_spec(pre, from, to, tags),
            subst_var_spec(pre, from, to, ext),
        ),
        FlatTypeV::RecursiveTagUnion(rec, tags, ext) => FlatTypeV::RecursiveTagUnion(
            subst_var_spec(pre, from, to, rec),
            subst_tags_spec(pre, from, to, tags),
            subst_var_spec(pre, from, to, ext),
        ),
        FlatTypeV::Func(args, closure, ret) => FlatTypeV::Func(
            subst_vars_spec(pre, from, to, args),
            subst_var_spec(pre, from, to, closure),
            subst_var_spec(pre, from, to, ret),
        ),
        FlatTypeV::Apply(symbol, args) => FlatTypeV::Apply(
            symbol,
            subst_vars_spec(pre, from, to, args),
        ),
        FlatTypeV::Boolean(b) => FlatTypeV::Boolean(subst_bool_spec(pre, from, to, b)),
    }
}

/// Substitution inside a content: every variable equivalent to `from` in the
/// store `pre` is replaced by `to`, one level deep.
pub open spec fn subst_content_spec(pre: Subs, from: Variable, to: Variable, c: ContentV)
    -> ContentV {
    match c {
        ContentV::FlexVar(name) => ContentV::FlexVar(name),
        ContentV::RigidVar(name) => ContentV::RigidVar(name),
        ContentV::Error => ContentV::Error,
        ContentV::Alias(symbol, args, real_var) => ContentV::Alias(
            symbol,
            args.map_values(
                |p: (Lowercase, Variable)| (p.0, subst_var_spec(pre, from, to, p.1)),
            ),
            subst_var_spec(pre, from, to, real_var),
        ),
        ContentV::Structure(ft) => ContentV::Structure(subst_flat_spec(pre, from, to, ft)),
    }
}

/// The root index is one of the seen set's members.
pub open spec fn root_seen(seen: Set<Variable>, root: int) -> bool {
    exists|rr: Variable| seen.contains(rr) && rr as int == root
}

/// The top level of a projected diagnostics tree reflects the content it was
/// projected from: names, symbols, argument counts and row keys carry over.
pub open spec fn err_type_matches(c: ContentV, t: ErrorType) -> bool {
    match c {
        ContentV::FlexVar(name) => t == ErrorType::FlexVar(name),
        ContentV::RigidVar(name) => t == ErrorType::RigidVar(name),
        ContentV::Error => t == ErrorType::Error,
        ContentV::Alias(s, args, _) => t matches ErrorType::Alias(s2, eargs, _) && s2 == s
            && eargs@.len() == args.len(),
        ContentV::Structure(ft) => match ft {
            FlatTypeV::EmptyRecord => t matches ErrorType::Record(fs, te) && fs@.len() == 0 && te
                == TypeExt::Closed,
            FlatTypeV::Record(m, _) => t matches ErrorType::Record(fs, _te) && forall|i: int|
                0 <= i < fs@.len() ==> m.dom().contains((#[trigger] fs@[i]).0),
            FlatTypeV::EmptyTagUnion => t matches ErrorType::TagUnion(ts, te) && ts@.len() == 0
                && te == TypeExt::Closed,
            FlatTypeV::TagUnion(m, _) => t matches ErrorType::TagUnion(ts, _te) && forall|i: int|
                0 <= i < ts@.len() ==> m.dom().contains((#[trigger] ts@[i]).0),
            FlatTypeV::RecursiveTagUnion(_, m, _) => t matches ErrorType::RecursiveTagUnion(
                _rec,
                ts,
                _te,
            ) && forall|i: int| 0 <= i < ts@.len() ==> m.dom().contains((#[trigger] ts@[i]).0),
            FlatTypeV::Func(args, _, _) => t matches ErrorType::Function(eargs, _c, _r)
                && eargs@.len() == args.len(),
            FlatTypeV::Apply(s, args) => t matches ErrorType::Apply(s2, eargs) && s2 == s
                && eargs@.len() == args.len(),
            FlatTypeV::Boolean(b) => t matches ErrorType::Boolean(bb) && bb@ == b,
        },
    }
}

// ---------------------------------------------------------------------------
// The store.
// ---------------------------------------------------------------------------

/// The type store.
#[derive(Clone, Debug, PartialEq, Eq)]
pub struct Subs {
    slots: Vec<Slot>,
}

/// A checkpoint of the whole store, permitting rollback.
#[derive(Debug, PartialEq, Eq)]
pub struct Snapshot {
    saved: Subs,
}

impl View for Subs {
    type V = Seq<SlotV>;

    open spec fn view(&self) -> Seq<SlotV> {
        self.eseq().map_values(|s: Slot| s@)
    }
}

impl View for Snapshot {
    type V = Seq<SlotV>;

    closed spec fn view(&self) -> Seq<SlotV> {
        self.saved@
    }
}

impl Snapshot {
    /// The saved store is well formed.
    pub closed spec fn wf(&self) -> bool {
        self.saved.wf()
    }
}

impl Subs {
    /// The exec slot sequence.
    pub closed spec fn eseq(&self) -> Seq<Slot> {
        self.slots@
    }

    /// How many slots the store has.
    pub open spec fn n(&self) -> int {
        self@.len() as int
    }

    /// The keyed collections stored in every descriptor are well formed.
    pub open spec fn exec_wf(&self) -> bool {
        forall|i: int| 0 <= i < self.eseq().len() ==> slot_exec_wf(#[trigger] &self.eseq()[i])
    }

    /// The store is well formed. It always holds at least the two
    /// pre-interned variables.
    pub open spec fn wf(&self) -> bool {
        2 <= self@.len() && seq_wf(self@) && self.exec_wf()
    }

    /// The union-find root of a variable.
    pub open spec fn root_spec(&self, v: Variable) -> int {
        seq_root_of(self@, v as int)
    }

    /// Two variables describe the same type: they share a root.
    pub open spec fn equiv(&self, a: Variable, b: Variable) -> bool {
        self.root_spec(a) == self.root_spec(b)
    }

    /// The descriptor a variable resolves to.
    pub open spec fn desc_at(&self, v: Variable) -> DescriptorV {
        match self@[self.root_spec(v)] {
            SlotV::Root(d) => d,
            SlotV::Redirect(_) => arbitrary(),
        }
    }

    /// The content a variable resolves to.
    pub open spec fn content_at(&self, v: Variable) -> ContentV {
        self.desc_at(v).content
    }

    /// A store holding only the two pre-interned empty structures.
    pub fn new() -> (s: Subs)
        ensures
            s.wf(),
            s.n() == 2,
            s.content_at(EMPTY_RECORD_VAR) == ContentV::Structure(
                crate::types::FlatTypeV::EmptyRecord,
            ),
            s.content_at(EMPTY_TAG_UNION_VAR) == ContentV::Structure(
                crate::types::FlatTypeV::EmptyTagUnion,
            ),
    {
        let mut slots: Vec<Slot> = Vec::new();
        slots.push(
            Slot::Root(
                Descriptor {
                    content: Content::Structure(FlatType::EmptyRecord),
                    rank: 0,
                    mark: MARK_NONE,
                    copy: None,
                },
            ),
        );
        slots.push(
            Slot::Root(
                Descriptor {
                    content: Content::Structure(FlatType::EmptyTagUnion),
                    rank: 0,
                    mark: MARK_NONE,
                    copy: None,
                },
            ),
        );
        let s = Subs { slots };
        proof {
            assert(s@[0] is Root);
            assert(s@[1] is Root);
            assert(s.wf());
        }
        s
    }

    /// How many variables the store holds.
    pub fn var_count(&self) -> (r: usize)
        ensures
            r as int == self.n(),
    {
        self.slots.len()
    }

    /// The root key of a variable.
    pub fn get_root_key(&self, v: Variable) -> (r: Variable)
        requires
            self.wf(),
            v < self.n(),
        ensures
            r as int == self.root_spec(v),
            r <= v,
            self.root_spec(r) == r as int,
            self@[r as int] is Root,
    {
        proof {
            lemma_root_bounds(self@, v as int);
        }
        let mut cur = v;
        loop
            invariant
                self.wf(),
                cur < self.n(),
                seq_root_of(self@, cur as int) == self.root_spec(v),
                cur <= v,
            decreases cur,
        {
            proof {
                lemma_root_bounds(self@, cur as int);
            }
            match &self.slots[cur] {
                Slot::Redirect(p) => {
                    proof {
                        assert(self@[cur as int] == self.eseq()[cur as int]@);
                        assert(slot_wf_at(self@, cur as int));
                    }
                    cur = *p;
                },
                Slot::Root(_) => {
                    proof {
                        assert(self@[cur as int] == self.eseq()[cur as int]@);
                        assert(self@[cur as int] is Root);
                        assert(seq_root_of(self@, cur as int) == cur as int);
                    }
                    return cur;
                },
            }
        }
    }

    /// Whether two variables share a root.
    pub fn equivalent(&self, a: Variable, b: Variable) -> (r: bool)
        requires
            self.wf(),
            a < self.n(),
            b < self.n(),
        ensures
            r == self.equiv(a, b),
    {
        self.get_root_key(a) == self.get_root_key(b)
    }

    /// A copy of the descriptor a variable resolves to.
    pub fn get(&self, v: Variable) -> (r: Descriptor)
        requires
            self.wf(),
            v < self.n(),
        ensures
            r@ == self.desc_at(v),
            content_wf(&r.content),
            content_ok(r.content@, self.n()),
    {
        let root = self.get_root_key(v);
        proof {
            assert(self@[root as int] == self.eseq()[root as int]@);
            assert(slot_exec_wf(&self.eseq()[root as int]));
            assert(slot_wf_at(self@, root as int));
        }
        match &self.slots[root] {
            Slot::Root(d) => d.clone(),
            Slot::Redirect(_) => vstd::pervasive::unreached(),
        }
    }

    /// Allocates a new variable with the given descriptor.
    pub fn fresh(&mut self, desc: Descriptor) -> (r: Variable)
        requires
            old(self).wf(),
            content_ok(desc.content@, old(self).n() + 1),
            content_wf(&desc.content),
        ensures
            final(self).wf(),
            final(self).n() == old(self).n() + 1,
            r as int == old(self).n(),
            r < final(self).n(),
            final(self)@ == old(self)@.push(SlotV::Root(desc@)),
            forall|w: Variable| w < old(self).n() ==> #[trigger] final(self).root_spec(w)
                == old(self).root_spec(w),
            forall|w: Variable| w < old(self).n() ==> #[trigger] final(self).desc_at(w) == old(
                self,
            ).desc_at(w),
            final(self).root_spec(r) == r as int,
            final(self).desc_at(r) == desc@,
    {
        let r = self.slots.len();
        let ghost pre = self@;
        self.slots.push(Slot::Root(desc));
        proof {
            assert(self@ =~= pre.push(SlotV::Root(desc@)));
            let post = self@;
            assert(seq_wf(post)) by {
                assert forall|i: int| 0 <= i < post.len() implies slot_wf_at(post, i) by {
                    if i < pre.len() {
                        assert(slot_wf_at(pre, i));
                        match pre[i] {
                            SlotV::Redirect(_) => {},
                            SlotV::Root(d) => {
                                lemma_content_ok_mono(d.content, pre.len() as int, post.len() as int);
                            },
                        }
                    }
                }
            }
            assert(self.exec_wf()) by {
                assert forall|i: int| 0 <= i < self.eseq().len() implies slot_exec_wf(
                    #[trigger] &self.eseq()[i],
                ) by {
                    if i < pre.len() {
                        assert(slot_exec_wf(&old(self).eseq()[i]));
                        assert(self.eseq()[i] == old(self).eseq()[i]);
                    }
                }
            }
            assert forall|w: Variable| w < old(self).n() implies #[trigger] self.root_spec(w)
                == old(self).root_spec(w) by {
                lemma_root_push(pre, SlotV::Root(desc@), w as int);
            }
            assert forall|w: Variable| w < old(self).n() implies #[trigger] self.desc_at(w) == old(
                self,
            ).desc_at(w) by {
                lemma_root_push(pre, SlotV::Root(desc@), w as int);
                lemma_root_bounds(pre, w as int);
            }
            assert(seq_root_of(post, r as int) == r as int);
        }
        r
    }

    /// Links the roots of `a` and `b` and installs the descriptor on the
    /// merged class.
    pub fn union(&mut self, a: Variable, b: Variable, desc: Descriptor)
        requires
            old(self).wf(),
            a < old(self).n(),
            b < old(self).n(),
            content_ok(desc.content@, old(self).n()),
            content_wf(&desc.content),
        ensures
            final(self).wf(),
            final(self).n() == old(self).n(),
            forall|v: Variable| v < old(self).n() ==> #[trigger] final(self).root_spec(v) == (if old(
                self,
            ).equiv(v, a) || old(self).equiv(v, b) {
                vstd::math::min(old(self).root_spec(a), old(self).root_spec(b))
            } else {
                old(self).root_spec(v)
            }),
            forall|v: Variable| v < old(self).n() && (old(self).equiv(v, a) || old(self).equiv(
                v,
                b,
            )) ==> #[trigger] final(self).desc_at(v) == desc@,
            forall|v: Variable| v < old(self).n() && !old(self).equiv(v, a) && !old(self).equiv(
                v,
                b,
            ) ==> #[trigger] final(self).desc_at(v) == old(self).desc_at(v),
            final(self).equiv(a, b),
            final(self).desc_at(a) == desc@,
    {
        let ra = self.get_root_key(a);
        let rb = self.get_root_key(b);
        let ghost pre = self@;
        if ra == rb {
            self.slots[ra] = Slot::Root(desc);
            proof {
                assert(self@ =~= pre.update(ra as int, SlotV::Root(desc@)));
                self.lemma_after_update1(*old(self), ra, desc@);
            }
        } else if ra < rb {
            self.slots[rb] = Slot::Redirect(ra);
            self.slots[ra] = Slot::Root(desc);
            proof {
                assert(self@ =~= pre.update(rb as int, SlotV::Redirect(ra)).update(
                    ra as int,
                    SlotV::Root(desc@),
                ));
                self.lemma_after_update2(*old(self), ra, rb, desc@);
            }
        } else {
            self.slots[ra] = Slot::Redirect(rb);
            self.slots[rb] = Slot::Root(desc);
            proof {
                assert(self@ =~= pre.update(ra as int, SlotV::Redirect(rb)).update(
                    rb as int,
                    SlotV::Root(desc@),
                ));
                self.lemma_after_update2(*old(self), rb, ra, desc@);
            }
        }
        proof {
            assert forall|i: int| 0 <= i < self.eseq().len() implies slot_exec_wf(
                #[trigger] &self.eseq()[i],
            ) by {
                if self.eseq().index(i) == old(self).eseq().index(i) {
                    assert(slot_exec_wf(&old(self).eseq()[i]));
                }
            }
        }
    }

    /// After overwriting the shared root `r` of both classes, every root and
    /// descriptor is as the union contract states.
    proof fn lemma_after_update1(&self, pre: Subs, r: Variable, d: DescriptorV)
        requires
            pre.wf(),
            content_ok(d.content, pre.n()),
            (r as int) < pre.n(),
            pre@[r as int] is Root,
            seq_root_of(pre@, r as int) == r as int,
            self@ == pre@.update(r as int, SlotV::Root(d)),
        ensures
            seq_wf(self@),
            forall|v: Variable| v < pre.n() ==> #[trigger] self.root_spec(v) == pre.root_spec(v),
            forall|v: Variable| v < pre.n() && pre.root_spec(v) == r as int
                ==> #[trigger] self.desc_at(v) == d,
            forall|v: Variable| v < pre.n() && pre.root_spec(v) != r as int
                ==> #[trigger] self.desc_at(v) == pre.desc_at(v),
    {
        assert(seq_wf(self@)) by {
            assert forall|i: int| 0 <= i < self@.len() implies slot_wf_at(self@, i) by {
                if i != r as int {
                    assert(slot_wf_at(pre@, i));
                }
            }
        }
        assert forall|v: Variable| v < pre.n() implies #[trigger] self.root_spec(v)
            == pre.root_spec(v) by {
            lemma_root_update1(pre@, r as int, d, v as int);
        }
        assert forall|v: Variable| v < pre.n() implies (pre.root_spec(v) == r as int
            ==> #[trigger] self.desc_at(v) == d) && (pre.root_spec(v) != r as int ==> self.desc_at(
            v,
        ) == pre.desc_at(v)) by {
            lemma_root_update1(pre@, r as int, d, v as int);
            lemma_root_bounds(pre@, v as int);
        }
    }

    /// After linking root `rb` onto root `ra` and installing the descriptor,
    /// every root and descriptor is as the union contract states.
    proof fn lemma_after_update2(&self, pre: Subs, ra: Variable, rb: Variable, d: DescriptorV)
        requires
            pre.wf(),
            content_ok(d.content, pre.n()),
            (ra as int) < pre.n(),
            (rb as int) < pre.n(),
            ra < rb,
            pre@[ra as int] is Root,
            pre@[rb as int] is Root,
            seq_root_of(pre@, ra as int) == ra as int,
            seq_root_of(pre@, rb as int) == rb as int,
            self@ == pre@.update(rb as int, SlotV::Redirect(ra)).update(ra as int, SlotV::Root(d)),
        ensures
            seq_wf(self@),
            forall|v: Variable| v < pre.n() ==> #[trigger] self.root_spec(v) == (if pre.root_spec(v)
                == rb as int {
                ra as int
            } else {
                pre.root_spec(v)
            }),
            forall|v: Variable| v < pre.n() && (pre.root_spec(v) == ra as int || pre.root_spec(v)
                == rb as int) ==> #[trigger] self.desc_at(v) == d,
            forall|v: Variable| v < pre.n() && pre.root_spec(v) != ra as int && pre.root_spec(v)
                != rb as int ==> #[trigger] self.desc_at(v) == pre.desc_at(v),
    {
        assert(seq_wf(self@)) by {
            assert forall|i: int| 0 <= i < self@.len() implies slot_wf_at(self@, i) by {
                if i == ra as int {
                } else if i == rb as int {
                } else {
                    assert(slot_wf_at(pre@, i));
                }
            }
        }
        assert forall|v: Variable| v < pre.n() implies #[trigger] self.root_spec(v) == (if
        pre.root_spec(v) == rb as int {
            ra as int
        } else {
            pre.root_spec(v)
        }) by {
            lemma_root_update2(pre@, ra, rb, d, v as int);
        }
        assert forall|v: Variable| v < pre.n() implies ((pre.root_spec(v) == ra as int
            || pre.root_spec(v) == rb as int) ==> #[trigger] self.desc_at(v) == d) && ((
        pre.root_spec(v) != ra as int && pre.root_spec(v) != rb as int) ==> self.desc_at(v)
            == pre.desc_at(v)) by {
            lemma_root_update2(pre@, ra, rb, d, v as int);
            lemma_root_bounds(pre@, v as int);
        }
    }

    /// Replaces the content a variable resolves to, keeping the class's rank,
    /// mark and copy.
    pub fn set_content(&mut self, v: Variable, content: Content)
        requires
            old(self).wf(),
            v < old(self).n(),
            content_ok(content@, old(self).n()),
            content_wf(&content),
        ensures
            final(self).wf(),
            final(self).n() == old(self).n(),
            forall|w: Variable| w < old(self).n() ==> #[trigger] final(self).root_spec(w) == old(
                self,
            ).root_spec(w),
            forall|w: Variable| w < old(self).n() && old(self).equiv(w, v)
                ==> #[trigger] final(self).desc_at(w) == (DescriptorV {
                content: content@,
                ..old(self).desc_at(v)
            }),
            forall|w: Variable| w < old(self).n() && !old(self).equiv(w, v)
                ==> #[trigger] final(self).desc_at(w) == old(self).desc_at(w),
    {
        let root = self.get_root_key(v);
        let ghost pre = self@;
        let (rank, mark, copy) = match &self.slots[root] {
            Slot::Root(d) => (d.rank, d.mark, d.copy),
            Slot::Redirect(_) => vstd::pervasive::unreached(),
        };
        proof {
            assert(self@[root as int] == self.eseq()[root as int]@);
        }
        self.slots[root] = Slot::Root(Descriptor { content, rank, mark, copy });
        proof {
            let ghost d = DescriptorV { content: content@, ..old(self).desc_at(v) };
            assert(self@ =~= pre.update(root as int, SlotV::Root(d)));
            self.lemma_after_update1(*old(self), root, d);
            assert forall|i: int| 0 <= i < self.eseq().len() implies slot_exec_wf(
                #[trigger] &self.eseq()[i],
            ) by {
                if i != root as int {
                    assert(slot_exec_wf(&old(self).eseq()[i]));
                }
            }
        }
    }

    /// A checkpoint of the whole store.
    pub fn snapshot(&self) -> (s: Snapshot)
        requires
            self.wf(),
        ensures
            s@ == self@,
            s.wf(),
    {
        let mut slots: Vec<Slot> = Vec::new();
        let n = self.slots.len();
        let mut i: usize = 0;
        while i < n
            invariant
                n == self.eseq().len(),
                i <= n,
                slots@.len() == i,
                forall|j: int| 0 <= j < i ==> (#[trigger] slots@[j])@ == self.eseq()[j]@
                    && slot_exec_wf(&slots@[j]),
                self.wf(),
            decreases n - i,
        {
            proof {
                assert(slot_exec_wf(&self.eseq()[i as int]));
            }
            let s = self.slots[i].clone();
            slots.push(s);
            i = i + 1;
        }
        let snap = Snapshot { saved: Subs { slots } };
        proof {
            assert(snap@ =~= self@);
            assert(snap.saved.wf());
        }
        snap
    }

    /// Restores the store to the snapshot's state.
    pub fn rollback_to(&mut self, s: Snapshot)
        requires
            s.wf(),
        ensures
            final(self)@ == s@,
            final(self).wf(),
    {
        self.slots = s.saved.slots;
    }

    /// Discards the snapshot, keeping the store as it is.
    pub fn commit_snapshot(&mut self, s: Snapshot)
        requires
            old(self).wf(),
        ensures
            final(self)@ == old(self)@,
            final(self).wf(),
    {
        let _ = s;
    }

    // -----------------------------------------------------------------------
    // Explicit substitution.
    // -----------------------------------------------------------------------

    /// The variable standing for `w` after substitution: `to` when `w` is
    /// equivalent to `from`, else `w` itself, queued for its own rewrite.
    fn subst_var(&self, work: &mut Vec<Variable>, from: Variable, to: Variable, w: Variable, pre:
        Ghost<Subs>) -> (r: Variable)
        requires
            self.wf(),
            from < self.n(),
            to < self.n(),
            w < self.n(),
            pre@.n() == self.n(),
            forall|v: Variable| v < self.n() ==> #[trigger] self.root_spec(v) == pre@.root_spec(v),
            forall|i: int| 0 <= i < old(work)@.len() ==> #[trigger] old(work)@[i] < self.n(),
        ensures
            r < self.n(),
            forall|i: int| 0 <= i < final(work)@.len() ==> #[trigger] final(work)@[i] < self.n(),
            r == subst_var_spec(pre@, from, to, w),
    {
        if self.equivalent(w, from) {
            to
        } else {
            work.push(w);
            w
        }
    }

    /// Substitutes in a list of payload variables.
    fn subst_vars(&self, work: &mut Vec<Variable>, from: Variable, to: Variable, vs: &Vec<
        Variable,
    >, pre: Ghost<Subs>) -> (r: Vec<Variable>)
        requires
            self.wf(),
            from < self.n(),
            to < self.n(),
            vars_ok(vs@, self.n()),
            pre@.n() == self.n(),
            forall|v: Variable| v < self.n() ==> #[trigger] self.root_spec(v) == pre@.root_spec(v),
            forall|i: int| 0 <= i < old(work)@.len() ==> #[trigger] old(work)@[i] < self.n(),
        ensures
            vars_ok(r@, self.n()),
            r@.len() == vs@.len(),
            r@ == subst_vars_spec(pre@, from, to, vs@),
            forall|i: int| 0 <= i < final(work)@.len() ==> #[trigger] final(work)@[i] < self.n(),
    {
        let mut out: Vec<Variable> = Vec::new();
        let mut i: usize = 0;
        while i < vs.len()
            invariant
                self.wf(),
                from < self.n(),
                to < self.n(),
                vars_ok(vs@, self.n()),
                pre@.n() == self.n(),
                forall|v: Variable| v < self.n() ==> #[trigger] self.root_spec(v)
                    == pre@.root_spec(v),
                i <= vs@.len(),
                out@.len() == i,
                vars_ok(out@, self.n()),
                forall|j: int| 0 <= j < i ==> #[trigger] out@[j] == subst_var_spec(
                    pre@,
                    from,
                    to,
                    vs@[j],
                ),
                forall|j: int| 0 <= j < work@.len() ==> #[trigger] work@[j] < self.n(),
            decreases vs@.len() - i,
        {
            let w = self.subst_var(work, from, to, vs[i], pre);
            out.push(w);
            i = i + 1;
        }
        proof {
            assert(out@ =~= subst_vars_spec(pre@, from, to, vs@));
        }
        out
    }

    /// Substitutes in every field of a record row.
    fn subst_fields(
        &self,
        work: &mut Vec<Variable>,
        from: Variable,
        to: Variable,
        fields: FieldMap,
        pre: Ghost<Subs>,
    ) -> (r: FieldMap)
        requires
            self.wf(),
            from < self.n(),
            to < self.n(),
            fields.wf(),
            fields_ok(fields@, self.n()),
            pre@.n() == self.n(),
            forall|v: Variable| v < self.n() ==> #[trigger] self.root_spec(v) == pre@.root_spec(v),
            forall|i: int| 0 <= i < old(work)@.len() ==> #[trigger] old(work)@[i] < self.n(),
        ensures
            r.wf(),
            fields_ok(r@, self.n()),
            r@ == subst_fields_spec(pre@, from, to, fields@),
            forall|i: int| 0 <= i < final(work)@.len() ==> #[trigger] final(work)@[i] < self.n(),
    {
        let ghost orig = fields.kseq();
        let mut fields = fields;
        let n = fields.len();
        let mut i: usize = 0;
        while i < n
            invariant
                self.wf(),
                from < self.n(),
                to < self.n(),
                pre@.n() == self.n(),
                forall|v: Variable| v < self.n() ==> #[trigger] self.root_spec(v)
                    == pre@.root_spec(v),
                i <= n,
                fields.wf(),
                fields.kseq().len() == n,
                orig.len() == n,
                distinct_keys(orig),
                forall|k: Lowercase| #[trigger] map_of(orig).dom().contains(k) ==> map_of(
                    orig,
                )[k].variable() < self.n(),
                forall|j: int| i <= j < n ==> #[trigger] fields.kseq()[j] == orig[j],
                forall|j: int| 0 <= j < i ==> #[trigger] fields.kseq()[j] == (
                    (orig[j]).0,
                    subst_field_spec(pre@, from, to, (orig[j]).1),
                ),
                forall|j: int| 0 <= j < work@.len() ==> #[trigger] work@[j] < self.n(),
            decreases n - i,
        {
            let (k, f) = fields.pair_at(i);
            proof {
                lemma_map_of_index(orig, i as int);
            }
            let nv = self.subst_var(work, from, to, f.into_inner(), pre);
            let nf = match f {
                RecordField::Required(_) => RecordField::Required(nv),
                RecordField::Demanded(_) => RecordField::Demanded(nv),
                RecordField::Optional(_) => RecordField::Optional(nv),
            };
            fields.value_update(i, nf);
            i = i + 1;
        }
        proof {
            assert forall|k: Lowercase| #[trigger] fields@.dom().contains(k) implies
                fields@[k].variable() < self.n() && map_of(orig).dom().contains(k) && fields@[k]
                == subst_field_spec(pre@, from, to, map_of(orig)[k]) by {
                lemma_map_of_dom(fields.kseq(), k);
                let j = choose|j: int| 0 <= j < fields.kseq().len() && (#[trigger] fields.kseq()[j]).0
                    == k;
                lemma_map_of_index(fields.kseq(), j);
                lemma_map_of_index(orig, j);
            }
            assert forall|k: Lowercase| #[trigger] map_of(orig).dom().contains(k) implies
                fields@.dom().contains(k) by {
                lemma_map_of_dom(orig, k);
                let j = choose|j: int| 0 <= j < orig.len() && (#[trigger] orig[j]).0 == k;
                assert((fields.kseq()[j]).0 == k);
                lemma_map_of_index(fields.kseq(), j);
            }
            assert(fields@ =~= subst_fields_spec(pre@, from, to, map_of(orig)));
        }
        fields
    }

    /// Substitutes in every payload of a tag row.
    fn subst_tags(
        &self,
        work: &mut Vec<Variable>,
        from: Variable,
        to: Variable,
        tags: TagMap,
        pre: Ghost<Subs>,
    ) -> (r: TagMap)
        requires
            self.wf(),
            from < self.n(),
            to < self.n(),
            tags.wf(),
            tags_ok(tags@, self.n()),
            pre@.n() == self.n(),
            forall|v: Variable| v < self.n() ==> #[trigger] self.root_spec(v) == pre@.root_spec(v),
            forall|i: int| 0 <= i < old(work)@.len() ==> #[trigger] old(work)@[i] < self.n(),
        ensures
            r.wf(),
            tags_ok(r@, self.n()),
            r@ == subst_tags_spec(pre@, from, to, tags@),
            forall|i: int| 0 <= i < final(work)@.len() ==> #[trigger] final(work)@[i] < self.n(),
    {
        let ghost orig = tags.kseq();
        let mut tags = tags;
        let n = tags.len();
        let mut i: usize = 0;
        while i < n
            invariant
                self.wf(),
                from < self.n(),
                to < self.n(),
                pre@.n() == self.n(),
                forall|v: Variable| v < self.n() ==> #[trigger] self.root_spec(v)
                    == pre@.root_spec(v),
                i <= n,
                tags.wf(),
                tags.kseq().len() == n,
                orig.len() == n,
                distinct_keys(orig),
                forall|k: TagName| #[trigger] map_of(orig).dom().contains(k) ==> vars_ok(
                    map_of(orig)[k],
                    self.n(),
                ),
                forall|j: int| i <= j < n ==> #[trigger] tags.kseq()[j] == orig[j],
                forall|j: int| 0 <= j < i ==> #[trigger] tags.kseq()[j] == (
                    (orig[j]).0,
                    subst_vars_spec(pre@, from, to, (orig[j]).1),
                ),
                forall|j: int| 0 <= j < work@.len() ==> #[trigger] work@[j] < self.n(),
            decreases n - i,
        {
            proof {
                lemma_map_of_index(orig, i as int);
            }
            let np = self.subst_vars(work, from, to, tags.payload_at(i), pre);
            tags.payload_update(i, np);
            i = i + 1;
        }
        proof {
            assert forall|k: TagName| #[trigger] tags@.dom().contains(k) implies vars_ok(
                tags@[k],
                self.n(),
            ) && map_of(orig).dom().contains(k) && tags@[k] == subst_vars_spec(
                pre@,
                from,
                to,
                map_of(orig)[k],
            ) by {
                lemma_map_of_dom(tags.kseq(), k);
                let j = choose|j: int| 0 <= j < tags.kseq().len() && (#[trigger] tags.kseq()[j]).0
                    == k;
                lemma_map_of_index(tags.kseq(), j);
                lemma_map_of_index(orig, j);
            }
            assert forall|k: TagName| #[trigger] map_of(orig).dom().contains(k) implies
                tags@.dom().contains(k) by {
                lemma_map_of_dom(orig, k);
                let j = choose|j: int| 0 <= j < orig.len() && (#[trigger] orig[j]).0 == k;
                assert((tags.kseq()[j]).0 == k);
                lemma_map_of_index(tags.kseq(), j);
            }
            assert(tags@ =~= subst_tags_spec(pre@, from, to, map_of(orig)));
        }
        tags
    }

    /// Substitutes in a uniqueness boolean.
    fn subst_bool(&self, work: &mut Vec<Variable>, from: Variable, to: Variable, b: Bool, pre:
        Ghost<Subs>) -> (r: Bool)
        requires
            self.wf(),
            from < self.n(),
            to < self.n(),
            bool_ok(b@, self.n()),
            (match &b {
                Bool::Container(_, ms) => ms.wf(),
                Bool::Shared => true,
            }),
            pre@.n() == self.n(),
            forall|v: Variable| v < self.n() ==> #[trigger] self.root_spec(v) == pre@.root_spec(v),
            forall|i: int| 0 <= i < old(work)@.len() ==> #[trigger] old(work)@[i] < self.n(),
        ensures
            bool_ok(r@, self.n()),
            (match &r {
                Bool::Container(_, ms) => ms.wf(),
                Bool::Shared => true,
            }),
            r@ == subst_bool_spec(pre@, from, to, b@),
            forall|i: int| 0 <= i < final(work)@.len() ==> #[trigger] final(work)@[i] < self.n(),
    {
        match b {
            Bool::Shared => Bool::Shared,
            Bool::Container(c, ms) => {
                proof {
                    assert(bool_ok(BoolV::Container(c, ms@), self.n()));
                }
                let c2 = self.subst_var(work, from, to, c, pre);
                let mut out = VarSet::new();
                let n = ms.len();
                let mut i: usize = 0;
                while i < n
                    invariant
                        self.wf(),
                        from < self.n(),
                        to < self.n(),
                        pre@.n() == self.n(),
                        forall|v: Variable| v < self.n() ==> #[trigger] self.root_spec(v)
                            == pre@.root_spec(v),
                        i <= n,
                        n == ms.seq().len(),
                        members_ok(ms@, self.n()),
                        out.wf(),
                        forall|v: Variable| #[trigger] out@.contains(v) ==> v < self.n(),
                        forall|w: Variable| #[trigger] out@.contains(w) <==> exists|j: int|
                            0 <= j < i && w == subst_var_spec(pre@, from, to, ms.seq()[j]),
                        forall|j: int| 0 <= j < work@.len() ==> #[trigger] work@[j] < self.n(),
                    decreases n - i,
                {
                    let w = ms.var_at(i);
                    let w2 = self.subst_var(work, from, to, w, pre);
                    out.insert(w2);
                    i = i + 1;
                }
                proof {
                    assert forall|w: Variable| #[trigger] out@.contains(w) implies ms@.map(
                        |v: Variable| subst_var_spec(pre@, from, to, v),
                    ).contains(w) by {
                        let j = choose|j: int|
                            0 <= j < n && w == subst_var_spec(pre@, from, to, ms.seq()[j]);
                        assert(ms.seq().contains(ms.seq()[j]));
                        assert(ms@.contains(ms.seq()[j]) && w == subst_var_spec(
                            *self,
                            from,
                            to,
                            ms.seq()[j],
                        ));
                    }
                    assert forall|w: Variable| ms@.map(
                        |v: Variable| subst_var_spec(pre@, from, to, v),
                    ).contains(w) implies out@.contains(w) by {
                        let v = choose|v: Variable|
                            ms@.contains(v) && w == subst_var_spec(pre@, from, to, v);
                        let j = choose|j: int| 0 <= j < ms.seq().len() && ms.seq()[j] == v;
                    }
                    assert(out@ =~= ms@.map(|v: Variable| subst_var_spec(pre@, from, to, v)));
                }
                Bool::Container(c2, out)
            },
        }
    }

    /// Substitutes in one content, queueing every untouched variable.
    fn subst_content(&self, work: &mut Vec<Variable>, from: Variable, to: Variable, c: Content, pre:
        Ghost<Subs>) -> (r: Content)
        requires
            self.wf(),
            from < self.n(),
            to < self.n(),
            content_ok(c@, self.n()),
            content_wf(&c),
            pre@.n() == self.n(),
            forall|v: Variable| v < self.n() ==> #[trigger] self.root_spec(v) == pre@.root_spec(v),
            forall|i: int| 0 <= i < old(work)@.len() ==> #[trigger] old(work)@[i] < self.n(),
        ensures
            content_ok(r@, self.n()),
            content_wf(&r),
            r@ == subst_content_spec(pre@, from, to, c@),
            forall|i: int| 0 <= i < final(work)@.len() ==> #[trigger] final(work)@[i] < self.n(),
    {
        let ghost cv = c@;
        match c {
            Content::FlexVar(name) => Content::FlexVar(name),
            Content::RigidVar(name) => Content::RigidVar(name),
            Content::Error => Content::Error,
            Content::Alias(symbol, args, real_var) => {
                proof {
                    assert(cv == ContentV::Alias(symbol, args@, real_var));
                }
                let mut new_args: Vec<(Lowercase, Variable)> = Vec::new();
                let n = args.len();
                let mut i: usize = 0;
                while i < n
                    invariant
                        self.wf(),
                        from < self.n(),
                        to < self.n(),
                        pre@.n() == self.n(),
                        forall|v: Variable| v < self.n() ==> #[trigger] self.root_spec(v)
                            == pre@.root_spec(v),
                        i <= n,
                        n == args@.len(),
                        alias_args_ok(args@, self.n()),
                        new_args@.len() == i,
                        alias_args_ok(new_args@, self.n()),
                        forall|j: int| 0 <= j < i ==> #[trigger] new_args@[j] == (
                            (args@[j]).0,
                            subst_var_spec(pre@, from, to, (args@[j]).1),
                        ),
                        forall|j: int| 0 <= j < work@.len() ==> #[trigger] work@[j] < self.n(),
                    decreases n - i,
                {
                    let (name, w) = args[i];
                    proof {
                        assert((args@[i as int]).1 == w);
                    }
                    let w2 = self.subst_var(work, from, to, w, pre);
                    new_args.push((name, w2));
                    i = i + 1;
                }
                let real2 = self.subst_var(work, from, to, real_var, pre);
                proof {
                    assert(new_args@ =~= args@.map_values(
                        |p: (Lowercase, Variable)| (p.0, subst_var_spec(pre@, from, to, p.1)),
                    ));
                }
                Content::Alias(symbol, new_args, real2)
            },
            Content::Structure(ft) => {
                let ft2 = match ft {
                    FlatType::EmptyRecord => FlatType::EmptyRecord,
                    FlatType::EmptyTagUnion => FlatType::EmptyTagUnion,
                    FlatType::Record(fields, ext) => {
                        let fields2 = self.subst_fields(work, from, to, fields, pre);
                        let ext2 = self.subst_var(work, from, to, ext, pre);
                        FlatType::Record(fields2, ext2)
                    },
                    FlatType::TagUnion(tags, ext) => {
                        let tags2 = self.subst_tags(work, from, to, tags, pre);
                        let ext2 = self.subst_var(work, from, to, ext, pre);
                        FlatType::TagUnion(tags2, ext2)
                    },
                    FlatType::RecursiveTagUnion(rec, tags, ext) => {
                        let rec2 = self.subst_var(work, from, to, rec, pre);
                        let tags2 = self.subst_tags(work, from, to, tags, pre);
                        let ext2 = self.subst_var(work, from, to, ext, pre);
                        FlatType::RecursiveTagUnion(rec2, tags2, ext2)
                    },
                    FlatType::Func(args, closure, ret) => {
                        let args2 = self.subst_vars(work, from, to, &args, pre);
                        let closure2 = self.subst_var(work, from, to, closure, pre);
                        let ret2 = self.subst_var(work, from, to, ret, pre);
                        FlatType::Func(args2, closure2, ret2)
                    },
                    FlatType::Apply(symbol, args) => {
                        let args2 = self.subst_vars(work, from, to, &args, pre);
                        FlatType::Apply(symbol, args2)
                    },
                    FlatType::Boolean(b) => {
                        let b2 = self.subst_bool(work, from, to, b, pre);
                        FlatType::Boolean(b2)
                    },
                };
                Content::Structure(ft2)
            },
        }
    }

    /// Substitutes `to` for every occurrence of a variable equivalent to
    /// `from` inside the subtree reachable from `within`, rewriting contents
    /// in place; classes and roots are left untouched.
    pub fn explicit_substitute(&mut self, from: Variable, to: Variable, within: Variable) -> (r:
        Variable)
        requires
            old(self).wf(),
            from < old(self).n(),
            to < old(self).n(),
            within < old(self).n(),
        ensures
            final(self).wf(),
            final(self).n() == old(self).n(),
            forall|w: Variable| w < old(self).n() ==> #[trigger] final(self).root_spec(w) == old(
                self,
            ).root_spec(w),
            r == (if old(self).equiv(within, from) {
                to
            } else {
                within
            }),
            old(self).equiv(within, from) ==> final(self)@ == old(self)@,
            !old(self).equiv(within, from) ==> final(self).desc_at(within) == (DescriptorV {
                content: subst_content_spec(
                    *old(self),
                    from,
                    to,
                    old(self).content_at(within),
                ),
                ..old(self).desc_at(within)
            }),
            forall|v: Variable| v < old(self).n() ==> (#[trigger] final(self).desc_at(v) == old(
                self,
            ).desc_at(v) || final(self).desc_at(v) == (DescriptorV {
                content: subst_content_spec(*old(self), from, to, old(self).content_at(v)),
                ..old(self).desc_at(v)
            })),
    {
        if self.equivalent(within, from) {
            return to;
        }
        // The entry variable's class is rewritten first; the classes its
        // content mentions are queued behind it.
        let ghost pre = *old(self);
        let rv0 = self.get_root_key(within);
        let mut seen = VarSet::new();
        seen.insert(rv0);
        proof {
            lemma_varset_card(seen.seq(), self.n());
        }
        let mut work: Vec<Variable> = Vec::new();
        let desc0 = self.get(within);
        let new_content0 = self.subst_content(&mut work, from, to, desc0.content, Ghost(pre));
        let ghost target = DescriptorV {
            content: subst_content_spec(*old(self), from, to, old(self).content_at(within)),
            ..old(self).desc_at(within)
        };
        self.set_content(rv0, new_content0);
        proof {
            assert(self.desc_at(within) == target);
        }
        loop
            invariant
                self.wf(),
                self.n() == old(self).n(),
                pre == *old(self),
                from < self.n(),
                to < self.n(),
                within < self.n(),
                forall|w: Variable| w < old(self).n() ==> #[trigger] self.root_spec(w) == old(
                    self,
                ).root_spec(w),
                forall|i: int| 0 <= i < work@.len() ==> #[trigger] work@[i] < self.n(),
                seen.wf(),
                forall|i: int| 0 <= i < seen.seq().len() ==> #[trigger] seen.seq()[i] < self.n(),
                seen.seq().len() <= self.n(),
                seen@.contains(rv0),
                rv0 as int == old(self).root_spec(within),
                self.desc_at(within) == target,
                forall|v: Variable| v < old(self).n() && !root_seen(seen@, self.root_spec(v))
                    ==> #[trigger] self.desc_at(v) == old(self).desc_at(v),
                forall|v: Variable| v < old(self).n() ==> (#[trigger] self.desc_at(v) == old(
                    self,
                ).desc_at(v) || self.desc_at(v) == (DescriptorV {
                    content: subst_content_spec(*old(self), from, to, old(self).content_at(v)),
                    ..old(self).desc_at(v)
                })),
            decreases self.n() - seen.seq().len(), work@.len(),
        {
            if work.len() == 0 {
                break ;
            }
            let v = match work.pop() {
                Some(v) => v,
                None => vstd::pervasive::unreached(),
            };
            let rv = self.get_root_key(v);
            if !seen.contains(rv) {
                proof {
                    // An uncovered class still carries its original
                    // descriptor.
                    assert(!root_seen(seen@, self.root_spec(rv)));
                    assert(self.desc_at(rv) == old(self).desc_at(rv));
                }
                seen.insert(rv);
                proof {
                    lemma_varset_card(seen.seq(), self.n());
                }
                let desc = self.get(rv);
                let new_content = self.subst_content(&mut work, from, to, desc.content, Ghost(pre));
                proof {
                    // The class about to be rewritten is not the entry
                    // variable's: its root is already marked as done.
                    assert(rv != rv0);
                    assert(self.root_spec(within) == rv0 as int);
                    assert(!self.equiv(within, rv));
                }
                let ghost before = *self;
                self.set_content(rv, new_content);
                proof {
                    assert forall|w: Variable| w < old(self).n() implies (#[trigger] self.desc_at(w)
                        == old(self).desc_at(w) || self.desc_at(w) == (DescriptorV {
                        content: subst_content_spec(
                            *old(self),
                            from,
                            to,
                            old(self).content_at(w),
                        ),
                        ..old(self).desc_at(w)
                    })) by {
                        if before.equiv(w, rv) {
                            assert(old(self).content_at(w) == old(self).content_at(rv));
                            assert(old(self).desc_at(w) == old(self).desc_at(rv));
                        }
                    }
                    assert forall|w: Variable| w < old(self).n() && !root_seen(
                        seen@,
                        self.root_spec(w),
                    ) implies #[trigger] self.desc_at(w) == old(self).desc_at(w) by {
                        assert(!before.equiv(w, rv)) by {
                            if before.equiv(w, rv) {
                                assert(root_seen(seen@, self.root_spec(w))) by {
                                    assert(seen@.contains(rv));
                                    assert(self.root_spec(w) == rv as int);
                                }
                            }
                        }
                    }
                }
            }
        }
        within
    }

    // -----------------------------------------------------------------------
    // Error-type projection.
    // -----------------------------------------------------------------------

    /// How the row ending in `ext` is reported: open in a flex or rigid
    /// variable, or closed.
    fn ext_to_type_ext(&self, ext: Variable) -> (r: TypeExt)
        requires
            self.wf(),
            ext < self.n(),
    {
        let d = self.get(ext);
        match d.content {
            Content::FlexVar(name) => TypeExt::FlexOpen(name),
            Content::RigidVar(name) => TypeExt::RigidOpen(name),
            _ => TypeExt::Closed,
        }
    }

    /// Projects a variable to a diagnostics tree; a variable reached again on
    /// its own path reports as `Infinite`.
    fn var_to_err(&self, v: Variable, seen: &VarSet) -> (r: ErrorType)
        requires
            self.wf(),
            v < self.n(),
            seen.wf(),
            forall|i: int| 0 <= i < seen.seq().len() ==> #[trigger] seen.seq()[i] < self.n(),
            seen.seq().len() <= self.n(),
        ensures
            seen.seq().len() == 0 ==> err_type_matches(self.content_at(v), r),
        decreases self.n() - seen.seq().len(), 1int,
    {
        let root = self.get_root_key(v);
        if seen.contains(root) {
            return ErrorType::Infinite;
        }
        let mut seen2 = seen.clone();
        seen2.insert(root);
        proof {
            lemma_varset_card(seen2.seq(), self.n());
        }
        let desc = self.get(v);
        let ghost cv = desc.content@;
        match desc.content {
            Content::FlexVar(name) => ErrorType::FlexVar(name),
            Content::RigidVar(name) => ErrorType::RigidVar(name),
            Content::Error => ErrorType::Error,
            Content::Alias(symbol, args, real_var) => {
                proof {
                    assert(cv == ContentV::Alias(symbol, args@, real_var));
                }
                let mut eargs: Vec<(Lowercase, ErrorType)> = Vec::new();
                let n = args.len();
                let mut i: usize = 0;
                while i < n
                    invariant
                        self.wf(),
                        i <= n,
                        n == args@.len(),
                        eargs@.len() == i,
                        alias_args_ok(args@, self.n()),
                        seen2.wf(),
                        forall|j: int| 0 <= j < seen2.seq().len() ==> #[trigger] seen2.seq()[j]
                            < self.n(),
                        seen2.seq().len() <= self.n(),
                        seen2.seq().len() == seen.seq().len() + 1,
                    decreases n - i,
                {
                    let (name, w) = args[i];
                    let t = self.var_to_err(w, &seen2);
                    eargs.push((name, t));
                    i = i + 1;
                }
                let ereal = self.var_to_err(real_var, &seen2);
                ErrorType::Alias(symbol, eargs, Box::new(ereal))
            },
            Content::Structure(ft) => match ft {
                FlatType::EmptyRecord => ErrorType::Record(Vec::new(), TypeExt::Closed),
                FlatType::EmptyTagUnion => ErrorType::TagUnion(Vec::new(), TypeExt::Closed),
                FlatType::Record(fields, ext) => {
                    let efields = self.fields_to_err(&fields, &seen2, Ghost(seen.seq().len() as int));
                    let te = self.ext_to_type_ext(ext);
                    ErrorType::Record(efields, te)
                },
                FlatType::TagUnion(tags, ext) => {
                    let etags = self.tags_to_err(&tags, &seen2, Ghost(seen.seq().len() as int));
                    let te = self.ext_to_type_ext(ext);
                    ErrorType::TagUnion(etags, te)
                },
                FlatType::RecursiveTagUnion(rec, tags, ext) => {
                    let erec = self.var_to_err(rec, &seen2);
                    let etags = self.tags_to_err(&tags, &seen2, Ghost(seen.seq().len() as int));
                    let te = self.ext_to_type_ext(ext);
                    ErrorType::RecursiveTagUnion(Box::new(erec), etags, te)
                },
                FlatType::Func(args, closure, ret) => {
                    let mut eargs: Vec<ErrorType> = Vec::new();
                    let n = args.len();
                    let mut i: usize = 0;
                    while i < n
                        invariant
                            self.wf(),
                            i <= n,
                            n == args@.len(),
                            eargs@.len() == i,
                            vars_ok(args@, self.n()),
                            seen2.wf(),
                            forall|j: int| 0 <= j < seen2.seq().len() ==> #[trigger] seen2.seq()[j]
                                < self.n(),
                            seen2.seq().len() <= self.n(),
                            seen2.seq().len() == seen.seq().len() + 1,
                        decreases n - i,
                    {
                        let t = self.var_to_err(args[i], &seen2);
                        eargs.push(t);
                        i = i + 1;
                    }
                    let eclosure = self.var_to_err(closure, &seen2);
                    let eret = self.var_to_err(ret, &seen2);
                    ErrorType::Function(eargs, Box::new(eclosure), Box::new(eret))
                },
                FlatType::Apply(symbol, args) => {
                    let mut eargs: Vec<ErrorType> = Vec::new();
                    let n = args.len();
                    let mut i: usize = 0;
                    while i < n
                        invariant
                            self.wf(),
                            i <= n,
                            n == args@.len(),
                            eargs@.len() == i,
                            vars_ok(args@, self.n()),
                            seen2.wf(),
                            forall|j: int| 0 <= j < seen2.seq().len() ==> #[trigger] seen2.seq()[j]
                                < self.n(),
                            seen2.seq().len() <= self.n(),
                            seen2.seq().len() == seen.seq().len() + 1,
                        decreases n - i,
                    {
                        let t = self.var_to_err(args[i], &seen2);
                        eargs.push(t);
                        i = i + 1;
                    }
                    ErrorType::Apply(symbol, eargs)
                },
                FlatType::Boolean(b) => ErrorType::Boolean(b),
            },
        }
    }

    /// Projects every field of a record row.
    fn fields_to_err(&self, fields: &FieldMap, seen: &VarSet, parent_len: Ghost<int>) -> (r: Vec<
        (Lowercase, ErrorField),
    >)
        requires
            self.wf(),
            fields.wf(),
            fields_ok(fields@, self.n()),
            seen.wf(),
            forall|i: int| 0 <= i < seen.seq().len() ==> #[trigger] seen.seq()[i] < self.n(),
            seen.seq().len() <= self.n(),
            seen.seq().len() == parent_len@ + 1,
            0 <= parent_len@,
        ensures
            forall|i: int| 0 <= i < r@.len() ==> fields@.dom().contains((#[trigger] r@[i]).0),
        decreases self.n() - parent_len@, 0int,
    {
        let mut out: Vec<(Lowercase, ErrorField)> = Vec::new();
        let n = fields.len();
        let mut i: usize = 0;
        while i < n
            invariant
                self.wf(),
                i <= n,
                n == fields.kseq().len(),
                fields.wf(),
                fields_ok(fields@, self.n()),
                seen.wf(),
                forall|j: int| 0 <= j < seen.seq().len() ==> #[trigger] seen.seq()[j] < self.n(),
                seen.seq().len() <= self.n(),
                seen.seq().len() == parent_len@ + 1,
                0 <= parent_len@,
                forall|j: int| 0 <= j < out@.len() ==> fields@.dom().contains((#[trigger] out@[j]).0),
            decreases n - i,
        {
            let (k, f) = fields.pair_at(i);
            proof {
                lemma_map_of_index(fields.kseq(), i as int);
            }
            let t = self.var_to_err(f.into_inner(), seen);
            let ef = match f {
                RecordField::Required(_) => ErrorField::Required(t),
                RecordField::Demanded(_) => ErrorField::Demanded(t),
                RecordField::Optional(_) => ErrorField::Optional(t),
            };
            out.push((k, ef));
            i = i + 1;
        }
        out
    }

    /// Projects every payload of a tag row.
    fn tags_to_err(&self, tags: &TagMap, seen: &VarSet, parent_len: Ghost<int>) -> (r: Vec<
        (TagName, Vec<ErrorType>),
    >)
        requires
            self.wf(),
            tags.wf(),
            tags_ok(tags@, self.n()),
            seen.wf(),
            forall|i: int| 0 <= i < seen.seq().len() ==> #[trigger] seen.seq()[i] < self.n(),
            seen.seq().len() <= self.n(),
            seen.seq().len() == parent_len@ + 1,
            0 <= parent_len@,
        ensures
            forall|i: int| 0 <= i < r@.len() ==> tags@.dom().contains((#[trigger] r@[i]).0),
        decreases self.n() - parent_len@, 0int,
    {
        let mut out: Vec<(TagName, Vec<ErrorType>)> = Vec::new();
        let n = tags.len();
        let mut i: usize = 0;
        while i < n
            invariant
                self.wf(),
                i <= n,
                n == tags.kseq().len(),
                tags.wf(),
                tags_ok(tags@, self.n()),
                seen.wf(),
                forall|j: int| 0 <= j < seen.seq().len() ==> #[trigger] seen.seq()[j] < self.n(),
                seen.seq().len() <= self.n(),
                seen.seq().len() == parent_len@ + 1,
                0 <= parent_len@,
                forall|j: int| 0 <= j < out@.len() ==> tags@.dom().contains((#[trigger] out@[j]).0),
            decreases n - i,
        {
            let k = tags.key_at(i);
            let payload = tags.payload_at(i);
            proof {
                lemma_map_of_index(tags.kseq(), i as int);
            }
            let mut ets: Vec<ErrorType> = Vec::new();
            let m = payload.len();
            let mut j: usize = 0;
            while j < m
                invariant
                    self.wf(),
                    j <= m,
                    m == payload@.len(),
                    vars_ok(payload@, self.n()),
                    seen.wf(),
                    forall|x: int| 0 <= x < seen.seq().len() ==> #[trigger] seen.seq()[x] < self.n(),
                    seen.seq().len() <= self.n(),
                    seen.seq().len() == parent_len@ + 1,
                    0 <= parent_len@,
                decreases m - j,
            {
                let t = self.var_to_err(payload[j], seen);
                ets.push(t);
                j = j + 1;
            }
            out.push((k, ets));
            i = i + 1;
        }
        out
    }

    /// Projects a variable into a closed error-type tree for diagnostics,
    /// together with the defects found on the way (none are produced: the
    /// store's invariant keeps every reachable variable in bounds).
    pub fn var_to_error_type(&self, v: Variable) -> (r: (ErrorType, Vec<Problem>))
        requires
            self.wf(),
            v < self.n(),
        ensures
            r.1@.len() == 0,
            err_type_matches(self.content_at(v), r.0),
    {
        let seen = VarSet::new();
        let t = self.var_to_err(v, &seen);
        (t, Vec::new())
    }
}

} // verus!
