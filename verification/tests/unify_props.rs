//! The unifier's behavioural properties, checked on concrete stores.

use roc_unify::collections::{FieldMap, TagMap, VarSet};
use roc_unify::subs::{Subs, EMPTY_RECORD_VAR, EMPTY_TAG_UNION_VAR};
use roc_unify::types::{Bool, Content, Descriptor, ErrorType, FlatType, Mismatch, RecordField, MARK_NONE};
use roc_unify::unify::{unify, unify_pool, Unified};

const SYM_INT: u64 = 10;
const SYM_STR: u64 = 11;
const SYM_LIST: u64 = 20;
const TAG_BLUE: u64 = 100;
const TAG_RED: u64 = 101;
const TAG_GREEN: u64 = 102;
const TAG_PAIR: u64 = 103;
const TAG_CONS: u64 = 104;
const TAG_NIL: u64 = 105;
const NAME_A: u64 = 1;
const NAME_X: u64 = 2;
const NAME_Y: u64 = 3;

fn desc(content: Content) -> Descriptor {
    Descriptor { content, rank: 0, mark: MARK_NONE, copy: None }
}

fn flex(subs: &mut Subs) -> usize {
    subs.fresh(desc(Content::FlexVar(None)))
}

fn rigid(subs: &mut Subs, name: u64) -> usize {
    subs.fresh(desc(Content::RigidVar(name)))
}

fn apply0(subs: &mut Subs, symbol: u64) -> usize {
    subs.fresh(desc(Content::Structure(FlatType::Apply(symbol, Vec::new()))))
}

fn int_type(subs: &mut Subs) -> usize {
    apply0(subs, SYM_INT)
}

fn record(subs: &mut Subs, fields: &[(u64, RecordField)], ext: usize) -> usize {
    let mut fm = FieldMap::new();
    for (name, field) in fields {
        fm.insert(*name, *field);
    }
    subs.fresh(desc(Content::Structure(FlatType::Record(fm, ext))))
}

fn tag_union(subs: &mut Subs, tags: &[(u64, Vec<usize>)], ext: usize) -> usize {
    let mut tm = TagMap::new();
    for (name, payload) in tags {
        tm.insert(*name, payload.clone());
    }
    subs.fresh(desc(Content::Structure(FlatType::TagUnion(tm, ext))))
}

fn is_success(u: &Unified) -> bool {
    matches!(u, Unified::Success(_))
}

fn is_failure(u: &Unified) -> bool {
    matches!(u, Unified::Failure(_, _, _))
}

#[test]
fn reflexivity_is_a_no_op() {
    let mut subs = Subs::new();
    let v = int_type(&mut subs);
    let before = subs.clone();
    match unify(&mut subs, v, v) {
        Unified::Success(pool) => assert_eq!(pool.len(), 0),
        _ => panic!("reflexive unification must succeed"),
    }
    assert_eq!(subs, before);
}

#[test]
fn symmetry_of_shallow_outcomes() {
    // Success both ways: flex against a structure.
    let mut s1 = Subs::new();
    let f = flex(&mut s1);
    let i = int_type(&mut s1);
    assert!(is_success(&unify(&mut s1, f, i)));
    let mut s2 = Subs::new();
    let f = flex(&mut s2);
    let i = int_type(&mut s2);
    assert!(is_success(&unify(&mut s2, i, f)));
    // Failure both ways: a rigid against a structure.
    let mut s3 = Subs::new();
    let r = rigid(&mut s3, NAME_A);
    let i = int_type(&mut s3);
    assert!(is_failure(&unify(&mut s3, r, i)));
    let mut s4 = Subs::new();
    let r = rigid(&mut s4, NAME_A);
    let i = int_type(&mut s4);
    assert!(is_failure(&unify(&mut s4, i, r)));
}

#[test]
fn flex_absorbs_other_content() {
    // Flex against rigid: the rigid content is adopted.
    let mut subs = Subs::new();
    let f = flex(&mut subs);
    let r = rigid(&mut subs, NAME_A);
    assert!(is_success(&unify(&mut subs, f, r)));
    assert_eq!(subs.get(f).content, Content::RigidVar(NAME_A));
    // Named flex against unnamed flex: the name hint is kept.
    let mut subs = Subs::new();
    let named = subs.fresh(desc(Content::FlexVar(Some(NAME_A))));
    let unnamed = flex(&mut subs);
    assert!(is_success(&unify(&mut subs, named, unnamed)));
    assert_eq!(subs.get(named).content, Content::FlexVar(Some(NAME_A)));
    assert!(subs.equivalent(named, unnamed));
}

#[test]
fn rigid_distinctness() {
    // Two rigids with the same name are distinct skolems.
    let mut subs = Subs::new();
    let r1 = rigid(&mut subs, NAME_A);
    let r2 = rigid(&mut subs, NAME_A);
    assert!(is_failure(&unify(&mut subs, r1, r2)));
    assert_eq!(subs.get(r1).content, Content::Error);
    assert!(subs.equivalent(r1, r2));
}

#[test]
fn alias_transparency_success() {
    // Alias(S, [], r) ~ Structure(ft) succeeds when r ~ ft succeeds.
    let mut subs = Subs::new();
    let real = int_type(&mut subs);
    let a = subs.fresh(desc(Content::Alias(SYM_LIST, Vec::new(), real)));
    let st = int_type(&mut subs);
    assert!(is_success(&unify(&mut subs, a, st)));
}

#[test]
fn alias_transparency_failure() {
    // Alias(S, [], r) ~ Structure(ft) fails when r ~ ft fails.
    let mut subs = Subs::new();
    let real = rigid(&mut subs, NAME_A);
    let a = subs.fresh(desc(Content::Alias(SYM_LIST, Vec::new(), real)));
    let st = int_type(&mut subs);
    assert!(is_failure(&unify(&mut subs, a, st)));
}

#[test]
fn idempotence_after_success() {
    let mut subs = Subs::new();
    let f = flex(&mut subs);
    let i = int_type(&mut subs);
    assert!(is_success(&unify(&mut subs, f, i)));
    let before = subs.clone();
    match unify(&mut subs, f, i) {
        Unified::Success(pool) => assert_eq!(pool.len(), 0),
        _ => panic!("second unification must be a no-op"),
    }
    assert_eq!(subs, before);
}

#[test]
fn idempotence_optional_against_empty() {
    // {a?: Int} ~ {} succeeds without linking the two variables; a second
    // call still changes nothing.
    let mut subs = Subs::new();
    let i = int_type(&mut subs);
    let ext = flex(&mut subs);
    let rec = record(&mut subs, &[(NAME_A, RecordField::Optional(i))], ext);
    assert!(is_success(&unify(&mut subs, rec, EMPTY_RECORD_VAR)));
    let before = subs.clone();
    assert!(is_success(&unify(&mut subs, rec, EMPTY_RECORD_VAR)));
    assert_eq!(subs, before);
}

#[test]
fn record_row_openness() {
    // {x: Int}r ~ {x: Int, y: Str} succeeds and closes r to {y: Str}.
    let mut subs = Subs::new();
    let i1 = int_type(&mut subs);
    let r = flex(&mut subs);
    let left = record(&mut subs, &[(NAME_X, RecordField::Required(i1))], r);
    let i2 = int_type(&mut subs);
    let s2 = apply0(&mut subs, SYM_STR);
    let right = record(
        &mut subs,
        &[
            (NAME_X, RecordField::Required(i2)),
            (NAME_Y, RecordField::Required(s2)),
        ],
        EMPTY_RECORD_VAR,
    );
    assert!(is_success(&unify(&mut subs, left, right)));
    match subs.get(r).content {
        Content::Structure(FlatType::Record(fields, ext)) => {
            assert_eq!(fields.len(), 1);
            assert_eq!(fields.get(NAME_Y), Some(RecordField::Required(s2)));
            assert_eq!(ext, EMPTY_RECORD_VAR);
        },
        other => panic!("the row variable should close over y, found {:?}", other),
    }
    // The merged record holds both fields.
    match subs.get(left).content {
        Content::Structure(FlatType::Record(fields, _)) => {
            assert_eq!(fields.len(), 2);
            assert!(fields.get(NAME_X).is_some());
            assert!(fields.get(NAME_Y).is_some());
        },
        other => panic!("expected a record, found {:?}", other),
    }
}

#[test]
fn optional_only_subsumes_empty() {
    let mut subs = Subs::new();
    let i = int_type(&mut subs);
    let ext = flex(&mut subs);
    let optional = record(&mut subs, &[(NAME_A, RecordField::Optional(i))], ext);
    assert!(is_success(&unify(&mut subs, optional, EMPTY_RECORD_VAR)));
}

#[test]
fn required_field_never_subsumes_empty() {
    let mut subs = Subs::new();
    let i = int_type(&mut subs);
    let ext = flex(&mut subs);
    let required = record(&mut subs, &[(NAME_A, RecordField::Required(i))], ext);
    assert!(is_failure(&unify(&mut subs, required, EMPTY_RECORD_VAR)));
}

#[test]
fn demanded_never_unifies_with_optional() {
    let mut subs = Subs::new();
    let i1 = int_type(&mut subs);
    let left = record(
        &mut subs,
        &[(NAME_A, RecordField::Demanded(i1))],
        EMPTY_RECORD_VAR,
    );
    let i2 = int_type(&mut subs);
    let right = record(
        &mut subs,
        &[(NAME_A, RecordField::Optional(i2))],
        EMPTY_RECORD_VAR,
    );
    assert!(is_failure(&unify(&mut subs, left, right)));
}

#[test]
fn tag_arity_mismatch_fails() {
    // [Pair Int Int] ~ [Pair Int] fails.
    let mut subs = Subs::new();
    let i1 = int_type(&mut subs);
    let i2 = int_type(&mut subs);
    let left = tag_union(&mut subs, &[(TAG_PAIR, vec![i1, i2])], EMPTY_TAG_UNION_VAR);
    let i3 = int_type(&mut subs);
    let right = tag_union(&mut subs, &[(TAG_PAIR, vec![i3])], EMPTY_TAG_UNION_VAR);
    assert!(is_failure(&unify(&mut subs, left, right)));
}

#[test]
fn recursive_unfolding() {
    // ConsList Int ~ Cons Int (Cons Int Nil), where
    // ConsList a : [Cons a (ConsList a), Nil].
    let mut subs = Subs::new();
    let i = int_type(&mut subs);
    let rvar = flex(&mut subs);
    let cons_list = {
        let mut tm = TagMap::new();
        tm.insert(TAG_CONS, vec![i, rvar]);
        tm.insert(TAG_NIL, Vec::new());
        subs.fresh(desc(Content::Structure(FlatType::RecursiveTagUnion(
            rvar,
            tm,
            EMPTY_TAG_UNION_VAR,
        ))))
    };
    // Tie the knot: the recursion variable resolves to the union itself.
    let union_desc = subs.get(cons_list);
    subs.union(rvar, cons_list, union_desc);
    // Cons Int (Cons Int y), an unfolding whose tail is still open.
    let y = flex(&mut subs);
    let i2 = int_type(&mut subs);
    let inner = tag_union(
        &mut subs,
        &[(TAG_CONS, vec![i2, y]), (TAG_NIL, Vec::new())],
        EMPTY_TAG_UNION_VAR,
    );
    let i3 = int_type(&mut subs);
    let outer = tag_union(
        &mut subs,
        &[(TAG_CONS, vec![i3, inner]), (TAG_NIL, Vec::new())],
        EMPTY_TAG_UNION_VAR,
    );
    assert!(is_success(&unify(&mut subs, outer, cons_list)));
}

#[test]
fn snapshot_rollback_restores_the_store() {
    let mut subs = Subs::new();
    let a = flex(&mut subs);
    let b = int_type(&mut subs);
    let before = subs.clone();
    let snapshot = subs.snapshot();
    let d = subs.get(b);
    subs.union(a, b, d);
    assert_ne!(subs, before);
    subs.rollback_to(snapshot);
    assert_eq!(subs, before);
}

#[test]
fn snapshot_commit_keeps_the_store() {
    let mut subs = Subs::new();
    let a = flex(&mut subs);
    let b = int_type(&mut subs);
    let snapshot = subs.snapshot();
    let d = subs.get(b);
    subs.union(a, b, d);
    let after_union = subs.clone();
    subs.commit_snapshot(snapshot);
    assert_eq!(subs, after_union);
}

#[test]
fn failed_tag_union_rolls_back_the_extension() {
    // [Blue]a ~ [Red, Green]: fails, and a is left untouched by the rolled
    // back extension unification.
    let mut subs = Subs::new();
    let alpha = flex(&mut subs);
    let left = tag_union(&mut subs, &[(TAG_BLUE, Vec::new())], alpha);
    let right = tag_union(
        &mut subs,
        &[(TAG_RED, Vec::new()), (TAG_GREEN, Vec::new())],
        EMPTY_TAG_UNION_VAR,
    );
    assert!(is_failure(&unify(&mut subs, left, right)));
    assert_eq!(subs.get(alpha).content, Content::FlexVar(None));
    assert_eq!(subs.get(left).content, Content::Error);
    assert!(subs.equivalent(left, right));
}

#[test]
fn error_propagates_as_success() {
    let mut subs = Subs::new();
    let e = subs.fresh(desc(Content::Error));
    let i = int_type(&mut subs);
    assert!(is_success(&unify(&mut subs, e, i)));
    assert_eq!(subs.get(e).content, Content::Error);
    assert_eq!(subs.get(i).content, Content::Error);
    // Later operations against the poisoned class keep propagating.
    let r = rigid(&mut subs, NAME_A);
    assert!(is_success(&unify(&mut subs, r, e)));
    assert_eq!(subs.get(r).content, Content::Error);
}

#[test]
fn flex_against_structure() {
    // A flex variable takes on the concrete structure.
    let mut subs = Subs::new();
    let f = flex(&mut subs);
    let i = int_type(&mut subs);
    match unify(&mut subs, f, i) {
        Unified::Success(pool) => assert_eq!(pool.len(), 0),
        _ => panic!("flex against a structure must succeed"),
    }
    assert_eq!(
        subs.get(f).content,
        Content::Structure(FlatType::Apply(SYM_INT, Vec::new()))
    );
}

#[test]
fn rigid_same_name_is_two_skolems() {
    let mut subs = Subs::new();
    let r1 = rigid(&mut subs, NAME_A);
    let r2 = rigid(&mut subs, NAME_A);
    match unify(&mut subs, r1, r2) {
        Unified::Failure(_, _, _) => {},
        _ => panic!("two rigids never unify, even under one name"),
    }
}

#[test]
fn record_field_kinds_combine() {
    // Record({x: Required(Int)}, ext1) ~ Record({x: Optional(Int), y:
    // Required(Str)}, EmptyRecord): x stays required and ext1 closes over y.
    let mut subs = Subs::new();
    let i1 = int_type(&mut subs);
    let ext1 = flex(&mut subs);
    let left = record(&mut subs, &[(NAME_X, RecordField::Required(i1))], ext1);
    let i2 = int_type(&mut subs);
    let s = apply0(&mut subs, SYM_STR);
    let right = record(
        &mut subs,
        &[
            (NAME_X, RecordField::Optional(i2)),
            (NAME_Y, RecordField::Required(s)),
        ],
        EMPTY_RECORD_VAR,
    );
    assert!(is_success(&unify(&mut subs, left, right)));
    match subs.get(left).content {
        Content::Structure(FlatType::Record(fields, ext)) => {
            match fields.get(NAME_X) {
                Some(RecordField::Required(_)) => {},
                other => panic!("x must stay required, found {:?}", other),
            }
            assert!(fields.get(NAME_Y).is_some());
            assert_eq!(ext, EMPTY_RECORD_VAR);
        },
        other => panic!("expected a record, found {:?}", other),
    }
    match subs.get(ext1).content {
        Content::Structure(FlatType::Record(fields, _)) => {
            assert!(fields.get(NAME_Y).is_some());
            assert!(fields.get(NAME_X).is_none());
        },
        other => panic!("the extension must close over y, found {:?}", other),
    }
}

#[test]
fn func_arity_mismatch() {
    // Func([Int], c1, Bool) ~ Func([Int, Int], c2, Bool) fails.
    let mut subs = Subs::new();
    let i1 = int_type(&mut subs);
    let b1 = apply0(&mut subs, SYM_STR);
    let c1 = flex(&mut subs);
    let left = subs.fresh(desc(Content::Structure(FlatType::Func(vec![i1], c1, b1))));
    let i2 = int_type(&mut subs);
    let i3 = int_type(&mut subs);
    let b2 = apply0(&mut subs, SYM_STR);
    let c2 = flex(&mut subs);
    let right = subs.fresh(desc(Content::Structure(FlatType::Func(
        vec![i2, i3],
        c2,
        b2,
    ))));
    assert!(is_failure(&unify(&mut subs, left, right)));
}

#[test]
fn func_component_mismatch_fails() {
    // Equal arity, but the first arguments cannot unify: a rigid against a
    // concrete type.
    let mut subs = Subs::new();
    let a1 = rigid(&mut subs, NAME_A);
    let r1 = int_type(&mut subs);
    let c1 = flex(&mut subs);
    let left = subs.fresh(desc(Content::Structure(FlatType::Func(vec![a1], c1, r1))));
    let a2 = int_type(&mut subs);
    let r2 = int_type(&mut subs);
    let c2 = flex(&mut subs);
    let right = subs.fresh(desc(Content::Structure(FlatType::Func(vec![a2], c2, r2))));
    assert!(is_failure(&unify(&mut subs, left, right)));
}

#[test]
fn boolean_container_meets_shared() {
    // Boolean(Container(c, {m})) ~ Boolean(Shared): c and m become Shared
    // and the root is Shared.
    let mut subs = Subs::new();
    let c = flex(&mut subs);
    let m = flex(&mut subs);
    let mut ms = VarSet::new();
    ms.insert(m);
    let left = subs.fresh(desc(Content::Structure(FlatType::Boolean(Bool::Container(
        c, ms,
    )))));
    let right = subs.fresh(desc(Content::Structure(FlatType::Boolean(Bool::Shared))));
    assert!(is_success(&unify(&mut subs, left, right)));
    assert_eq!(
        subs.get(c).content,
        Content::Structure(FlatType::Boolean(Bool::Shared))
    );
    assert_eq!(
        subs.get(m).content,
        Content::Structure(FlatType::Boolean(Bool::Shared))
    );
    assert_eq!(
        subs.get(left).content,
        Content::Structure(FlatType::Boolean(Bool::Shared))
    );
}

#[test]
fn unify_pool_reports_mismatches() {
    let mut subs = Subs::new();
    let r1 = rigid(&mut subs, NAME_A);
    let r2 = rigid(&mut subs, NAME_A);
    let mut pool = Vec::new();
    let out = unify_pool(&mut subs, &mut pool, r1, r2);
    assert_eq!(out, vec![Mismatch::TypeMismatch]);
    let f = flex(&mut subs);
    let i = int_type(&mut subs);
    let out = unify_pool(&mut subs, &mut pool, f, i);
    assert_eq!(out.len(), 0);
}

#[test]
fn alias_arity_mismatch_fails() {
    // Same alias head, different argument counts: the aliases do not unify.
    let mut subs = Subs::new();
    let i1 = int_type(&mut subs);
    let r1 = int_type(&mut subs);
    let left = subs.fresh(desc(Content::Alias(SYM_LIST, vec![(NAME_A, i1)], r1)));
    let r2 = int_type(&mut subs);
    let right = subs.fresh(desc(Content::Alias(SYM_LIST, Vec::new(), r2)));
    assert!(is_failure(&unify(&mut subs, left, right)));
}

#[test]
fn apply_symbol_mismatch_fails() {
    let mut subs = Subs::new();
    let left = apply0(&mut subs, SYM_INT);
    let right = apply0(&mut subs, SYM_STR);
    assert!(is_failure(&unify(&mut subs, left, right)));
}

#[test]
fn populated_tag_union_vs_empty_fails() {
    let mut subs = Subs::new();
    let ext = flex(&mut subs);
    let left = tag_union(&mut subs, &[(TAG_RED, Vec::new())], ext);
    assert!(is_failure(&unify(&mut subs, left, EMPTY_TAG_UNION_VAR)));
}

#[test]
fn empty_rows_unify() {
    let mut subs = Subs::new();
    let e1 = subs.fresh(desc(Content::Structure(FlatType::EmptyRecord)));
    assert!(is_success(&unify(&mut subs, e1, EMPTY_RECORD_VAR)));
    let e2 = subs.fresh(desc(Content::Structure(FlatType::EmptyTagUnion)));
    assert!(is_success(&unify(&mut subs, e2, EMPTY_TAG_UNION_VAR)));
    assert!(is_failure(&unify(&mut subs, e1, e2)));
}

#[test]
fn failure_carries_projected_types() {
    // The two trees of a failure are the operands' projections, taken before
    // the poisoning.
    let mut subs = Subs::new();
    let r = rigid(&mut subs, NAME_A);
    let i = int_type(&mut subs);
    match unify(&mut subs, r, i) {
        Unified::Failure(_, t1, t2) => {
            assert_eq!(t1, ErrorType::RigidVar(NAME_A));
            match t2 {
                ErrorType::Apply(symbol, args) => {
                    assert_eq!(symbol, SYM_INT);
                    assert!(args.is_empty());
                },
                other => panic!("expected an applied type, found {:?}", other),
            }
        },
        _ => panic!("a rigid against a structure must fail"),
    }
}

#[test]
fn explicit_substitute_rewrites_contents() {
    let mut subs = Subs::new();
    let from = flex(&mut subs);
    let to = int_type(&mut subs);
    let holder = tag_union(&mut subs, &[(TAG_PAIR, vec![from])], EMPTY_TAG_UNION_VAR);
    let result = subs.explicit_substitute(from, to, holder);
    assert_eq!(result, holder);
    match subs.get(holder).content {
        Content::Structure(FlatType::TagUnion(tags, _)) => {
            assert_eq!(tags.get(TAG_PAIR).map(|v| v.clone()), Some(vec![to]));
        },
        other => panic!("expected a tag union, found {:?}", other),
    }
}
