//! Tag-union unification scenarios: each test builds the types that the
//! corresponding source program gives rise to and checks how they unify.

use roc_unify::collections::{FieldMap, TagMap};
use roc_unify::subs::{Subs, EMPTY_RECORD_VAR, EMPTY_TAG_UNION_VAR};
use roc_unify::types::{Content, Descriptor, FlatType, RecordField, MARK_NONE};
use roc_unify::unify::{unify, Unified};

const SYM_INT: u64 = 10;
const SYM_FLOAT: u64 = 11;
const SYM_MAYBE: u64 = 20;
const SYM_FRUIT: u64 = 21;
const SYM_UNIT: u64 = 22;
const SYM_THESE: u64 = 23;
const SYM_RESULT: u64 = 24;

const TAG_JUST: u64 = 100;
const TAG_NOTHING: u64 = 101;
const TAG_TRUE: u64 = 102;
const TAG_FALSE: u64 = 103;
const TAG_RED: u64 = 104;
const TAG_GREEN: u64 = 105;
const TAG_BLUE: u64 = 106;
const TAG_ORANGE: u64 = 107;
const TAG_APPLE: u64 = 108;
const TAG_BANANA: u64 = 109;
const TAG_PAIR: u64 = 110;
const TAG_THIS: u64 = 111;
const TAG_THAT: u64 = 112;
const TAG_THESE: u64 = 113;
const TAG_OK: u64 = 114;
const TAG_ERR: u64 = 115;
const TAG_UNIT: u64 = 116;

const NAME_A: u64 = 1;

fn desc(content: Content) -> Descriptor {
    Descriptor { content, rank: 0, mark: MARK_NONE, copy: None }
}

fn flex(subs: &mut Subs) -> usize {
    subs.fresh(desc(Content::FlexVar(None)))
}

fn apply0(subs: &mut Subs, symbol: u64) -> usize {
    subs.fresh(desc(Content::Structure(FlatType::Apply(symbol, Vec::new()))))
}

fn int_type(subs: &mut Subs) -> usize {
    apply0(subs, SYM_INT)
}

fn tag_union(subs: &mut Subs, tags: &[(u64, Vec<usize>)], ext: usize) -> usize {
    let mut tm = TagMap::new();
    for (name, payload) in tags {
        tm.insert(*name, payload.clone());
    }
    subs.fresh(desc(Content::Structure(FlatType::TagUnion(tm, ext))))
}

fn alias(subs: &mut Subs, symbol: u64, args: Vec<(u64, usize)>, real: usize) -> usize {
    subs.fresh(desc(Content::Alias(symbol, args, real)))
}

fn bool_union(subs: &mut Subs) -> usize {
    tag_union(
        subs,
        &[(TAG_TRUE, Vec::new()), (TAG_FALSE, Vec::new())],
        EMPTY_TAG_UNION_VAR,
    )
}

fn is_success(u: &Unified) -> bool {
    matches!(u, Unified::Success(_))
}

/// `Maybe Int` as an alias over its expansion.
fn maybe_int_type(subs: &mut Subs) -> usize {
    let i = int_type(subs);
    let real = tag_union(
        subs,
        &[(TAG_JUST, vec![i]), (TAG_NOTHING, Vec::new())],
        EMPTY_TAG_UNION_VAR,
    );
    alias(subs, SYM_MAYBE, vec![(NAME_A, i)], real)
}

#[test]
fn applied_tag_nothing() {
    // x : Maybe Int, x = Nothing
    let mut subs = Subs::new();
    let ext = flex(&mut subs);
    let value = tag_union(&mut subs, &[(TAG_NOTHING, Vec::new())], ext);
    let annot = maybe_int_type(&mut subs);
    assert!(is_success(&unify(&mut subs, value, annot)));
}

#[test]
fn applied_tag_just() {
    // y : Maybe Int, y = Just 0x4
    let mut subs = Subs::new();
    let payload = int_type(&mut subs);
    let ext = flex(&mut subs);
    let value = tag_union(&mut subs, &[(TAG_JUST, vec![payload])], ext);
    let annot = maybe_int_type(&mut subs);
    assert!(is_success(&unify(&mut subs, value, annot)));
}

#[test]
fn applied_tag_just_unit() {
    // Fruit : [Orange, Apple, Banana], y : Maybe Fruit, y = Just orange
    let mut subs = Subs::new();
    let fruit_real = tag_union(
        &mut subs,
        &[
            (TAG_ORANGE, Vec::new()),
            (TAG_APPLE, Vec::new()),
            (TAG_BANANA, Vec::new()),
        ],
        EMPTY_TAG_UNION_VAR,
    );
    let fruit = alias(&mut subs, SYM_FRUIT, Vec::new(), fruit_real);
    let ext = flex(&mut subs);
    let value = tag_union(&mut subs, &[(TAG_JUST, vec![fruit])], ext);
    let fruit2_real = tag_union(
        &mut subs,
        &[
            (TAG_ORANGE, Vec::new()),
            (TAG_APPLE, Vec::new()),
            (TAG_BANANA, Vec::new()),
        ],
        EMPTY_TAG_UNION_VAR,
    );
    let fruit2 = alias(&mut subs, SYM_FRUIT, Vec::new(), fruit2_real);
    let real = tag_union(
        &mut subs,
        &[(TAG_JUST, vec![fruit2]), (TAG_NOTHING, Vec::new())],
        EMPTY_TAG_UNION_VAR,
    );
    let annot = alias(&mut subs, SYM_MAYBE, vec![(NAME_A, fruit2)], real);
    assert!(is_success(&unify(&mut subs, value, annot)));
}

#[test]
fn true_is_true() {
    // bool : [True, False], bool = True
    let mut subs = Subs::new();
    let ext = flex(&mut subs);
    let value = tag_union(&mut subs, &[(TAG_TRUE, Vec::new())], ext);
    let annot = bool_union(&mut subs);
    assert!(is_success(&unify(&mut subs, value, annot)));
}

#[test]
fn false_is_false() {
    let mut subs = Subs::new();
    let ext = flex(&mut subs);
    let value = tag_union(&mut subs, &[(TAG_FALSE, Vec::new())], ext);
    let annot = bool_union(&mut subs);
    assert!(is_success(&unify(&mut subs, value, annot)));
}

#[test]
fn basic_enum() {
    // Fruit : [Apple, Orange, Banana]; a value built from one constructor
    let mut subs = Subs::new();
    let ext = flex(&mut subs);
    let value = tag_union(&mut subs, &[(TAG_APPLE, Vec::new())], ext);
    let annot = tag_union(
        &mut subs,
        &[
            (TAG_APPLE, Vec::new()),
            (TAG_ORANGE, Vec::new()),
            (TAG_BANANA, Vec::new()),
        ],
        EMPTY_TAG_UNION_VAR,
    );
    assert!(is_success(&unify(&mut subs, value, annot)));
}

#[test]
fn even_odd() {
    // even : Int -> Bool and odd : Int -> Bool call each other: their types
    // must unify with the shape Int -> Bool.
    let mut subs = Subs::new();
    let i1 = int_type(&mut subs);
    let b1 = bool_union(&mut subs);
    let c1 = flex(&mut subs);
    let even = subs.fresh(desc(Content::Structure(FlatType::Func(vec![i1], c1, b1))));
    let i2 = int_type(&mut subs);
    let b2 = bool_union(&mut subs);
    let c2 = flex(&mut subs);
    let odd = subs.fresh(desc(Content::Structure(FlatType::Func(vec![i2], c2, b2))));
    assert!(is_success(&unify(&mut subs, even, odd)));
}

#[test]
fn gen_literal_true() {
    // if True then -1 else 1: the condition unifies with the boolean union
    let mut subs = Subs::new();
    let ext = flex(&mut subs);
    let cond = tag_union(&mut subs, &[(TAG_TRUE, Vec::new())], ext);
    let annot = bool_union(&mut subs);
    assert!(is_success(&unify(&mut subs, cond, annot)));
}

#[test]
fn gen_if_float() {
    // if True then -1.0 else 1.0: both branch types unify
    let mut subs = Subs::new();
    let then_branch = apply0(&mut subs, SYM_FLOAT);
    let else_branch = apply0(&mut subs, SYM_FLOAT);
    assert!(is_success(&unify(&mut subs, then_branch, else_branch)));
}

#[test]
fn when_on_nothing() {
    // x : [Nothing]; when x is Nothing -> ...
    let mut subs = Subs::new();
    let x = tag_union(&mut subs, &[(TAG_NOTHING, Vec::new())], EMPTY_TAG_UNION_VAR);
    let ext = flex(&mut subs);
    let pattern = tag_union(&mut subs, &[(TAG_NOTHING, Vec::new())], ext);
    assert!(is_success(&unify(&mut subs, x, pattern)));
}

#[test]
fn when_on_just() {
    // x = Just 41; when x is Just v -> ... Nothing -> ...
    let mut subs = Subs::new();
    let p = int_type(&mut subs);
    let ext = flex(&mut subs);
    let x = tag_union(&mut subs, &[(TAG_JUST, vec![p])], ext);
    let p2 = flex(&mut subs);
    let patterns = tag_union(
        &mut subs,
        &[(TAG_JUST, vec![p2]), (TAG_NOTHING, Vec::new())],
        EMPTY_TAG_UNION_VAR,
    );
    assert!(is_success(&unify(&mut subs, x, patterns)));
    // The pattern variable now resolves to the payload's type.
    assert!(subs.equivalent(p, p2));
}

#[test]
fn when_on_result() {
    // x : Result Int Int; when x is Ok v / Err v
    let mut subs = Subs::new();
    let ok_p = int_type(&mut subs);
    let err_p = int_type(&mut subs);
    let ext = flex(&mut subs);
    let x = tag_union(&mut subs, &[(TAG_ERR, vec![err_p])], ext);
    let ok_p2 = int_type(&mut subs);
    let err_p2 = int_type(&mut subs);
    let real = tag_union(
        &mut subs,
        &[(TAG_OK, vec![ok_p2]), (TAG_ERR, vec![err_p2])],
        EMPTY_TAG_UNION_VAR,
    );
    let annot = alias(&mut subs, SYM_RESULT, vec![(NAME_A, ok_p)], real);
    assert!(is_success(&unify(&mut subs, x, annot)));
}

#[test]
fn when_on_these() {
    // These a b : [This a, That b, These a b]
    let mut subs = Subs::new();
    let a = int_type(&mut subs);
    let b = int_type(&mut subs);
    let ext = flex(&mut subs);
    let value = tag_union(&mut subs, &[(TAG_THESE, vec![a, b])], ext);
    let a2 = flex(&mut subs);
    let b2 = flex(&mut subs);
    let real = tag_union(
        &mut subs,
        &[
            (TAG_THIS, vec![a2]),
            (TAG_THAT, vec![b2]),
            (TAG_THESE, vec![a2, b2]),
        ],
        EMPTY_TAG_UNION_VAR,
    );
    let annot = alias(&mut subs, SYM_THESE, vec![(NAME_A, a2)], real);
    assert!(is_success(&unify(&mut subs, value, annot)));
}

#[test]
fn match_on_two_values() {
    // when Pair 2 3 is Pair 4 3 -> ... Pair a b -> ...
    let mut subs = Subs::new();
    let a1 = int_type(&mut subs);
    let b1 = int_type(&mut subs);
    let ext = flex(&mut subs);
    let value = tag_union(&mut subs, &[(TAG_PAIR, vec![a1, b1])], ext);
    let a2 = flex(&mut subs);
    let b2 = flex(&mut subs);
    let ext2 = flex(&mut subs);
    let pattern = tag_union(&mut subs, &[(TAG_PAIR, vec![a2, b2])], ext2);
    assert!(is_success(&unify(&mut subs, value, pattern)));
}

#[test]
fn pair_with_guard_pattern() {
    let mut subs = Subs::new();
    let a1 = int_type(&mut subs);
    let b1 = int_type(&mut subs);
    let ext = flex(&mut subs);
    let value = tag_union(&mut subs, &[(TAG_PAIR, vec![a1, b1])], ext);
    let a2 = flex(&mut subs);
    let b2 = flex(&mut subs);
    let ext2 = flex(&mut subs);
    let pattern = tag_union(&mut subs, &[(TAG_PAIR, vec![a2, b2])], ext2);
    assert!(is_success(&unify(&mut subs, value, pattern)));
}

#[test]
fn result_with_guard_pattern() {
    // x : Result Int Int, x = Ok 2, matched with a guard
    let mut subs = Subs::new();
    let p = int_type(&mut subs);
    let ext = flex(&mut subs);
    let x = tag_union(&mut subs, &[(TAG_OK, vec![p])], ext);
    let ok_p = int_type(&mut subs);
    let err_p = int_type(&mut subs);
    let annot = tag_union(
        &mut subs,
        &[(TAG_OK, vec![ok_p]), (TAG_ERR, vec![err_p])],
        EMPTY_TAG_UNION_VAR,
    );
    assert!(is_success(&unify(&mut subs, x, annot)));
}

#[test]
fn maybe_is_just() {
    // Maybe a : [Just a, Nothing]; isJust (Just 2)
    let mut subs = Subs::new();
    let p = int_type(&mut subs);
    let ext = flex(&mut subs);
    let value = tag_union(&mut subs, &[(TAG_JUST, vec![p])], ext);
    let annot = maybe_int_type(&mut subs);
    assert!(is_success(&unify(&mut subs, value, annot)));
}

#[test]
fn nested_pattern_match() {
    // Maybe (Maybe Int): Just (Just 42) against the annotation
    let mut subs = Subs::new();
    let inner_p = int_type(&mut subs);
    let inner_ext = flex(&mut subs);
    let inner = tag_union(&mut subs, &[(TAG_JUST, vec![inner_p])], inner_ext);
    let outer_ext = flex(&mut subs);
    let value = tag_union(&mut subs, &[(TAG_JUST, vec![inner])], outer_ext);
    let inner_annot = maybe_int_type(&mut subs);
    let real = tag_union(
        &mut subs,
        &[(TAG_JUST, vec![inner_annot]), (TAG_NOTHING, Vec::new())],
        EMPTY_TAG_UNION_VAR,
    );
    let annot = alias(&mut subs, SYM_MAYBE, vec![(NAME_A, inner_annot)], real);
    assert!(is_success(&unify(&mut subs, value, annot)));
}

#[test]
fn if_guard_pattern_false() {
    // when 2 is _ if False -> 0; _ -> 42: the scrutinee unifies with the
    // integer pattern, the guard with the boolean union
    let mut subs = Subs::new();
    let scrutinee = int_type(&mut subs);
    let pattern = flex(&mut subs);
    assert!(is_success(&unify(&mut subs, scrutinee, pattern)));
    let ext = flex(&mut subs);
    let guard = tag_union(&mut subs, &[(TAG_FALSE, Vec::new())], ext);
    let annot = bool_union(&mut subs);
    assert!(is_success(&unify(&mut subs, guard, annot)));
}

#[test]
fn if_guard_pattern_true() {
    let mut subs = Subs::new();
    let scrutinee = int_type(&mut subs);
    let pattern = flex(&mut subs);
    assert!(is_success(&unify(&mut subs, scrutinee, pattern)));
    let ext = flex(&mut subs);
    let guard = tag_union(&mut subs, &[(TAG_TRUE, Vec::new())], ext);
    let annot = bool_union(&mut subs);
    assert!(is_success(&unify(&mut subs, guard, annot)));
}

#[test]
fn if_guard_exhaustiveness() {
    let mut subs = Subs::new();
    let scrutinee = bool_union(&mut subs);
    let pattern = flex(&mut subs);
    assert!(is_success(&unify(&mut subs, scrutinee, pattern)));
}

#[test]
fn when_on_enum() {
    // Color : [Red, Green, Blue]; when Red is ...
    let mut subs = Subs::new();
    let ext = flex(&mut subs);
    let value = tag_union(&mut subs, &[(TAG_RED, Vec::new())], ext);
    let patterns = tag_union(
        &mut subs,
        &[
            (TAG_RED, Vec::new()),
            (TAG_GREEN, Vec::new()),
            (TAG_BLUE, Vec::new()),
        ],
        EMPTY_TAG_UNION_VAR,
    );
    assert!(is_success(&unify(&mut subs, value, patterns)));
}

#[test]
fn pattern_matching_unit() {
    // Unit : [Unit]; when Unit is Unit -> 42, and when {} is {} -> 42
    let mut subs = Subs::new();
    let unit_real = tag_union(&mut subs, &[(TAG_UNIT, Vec::new())], EMPTY_TAG_UNION_VAR);
    let unit = alias(&mut subs, SYM_UNIT, Vec::new(), unit_real);
    let ext = flex(&mut subs);
    let value = tag_union(&mut subs, &[(TAG_UNIT, Vec::new())], ext);
    assert!(is_success(&unify(&mut subs, value, unit)));
    let empty1 = subs.fresh(desc(Content::Structure(FlatType::EmptyRecord)));
    assert!(is_success(&unify(&mut subs, empty1, EMPTY_RECORD_VAR)));
    let pattern = flex(&mut subs);
    assert!(is_success(&unify(&mut subs, empty1, pattern)));
    assert!(subs.equivalent(empty1, pattern));
}

#[test]
fn one_element_tag() {
    // x : [Pair Int]
    let mut subs = Subs::new();
    let p = int_type(&mut subs);
    let ext = flex(&mut subs);
    let value = tag_union(&mut subs, &[(TAG_PAIR, vec![p])], ext);
    let p2 = int_type(&mut subs);
    let annot = tag_union(&mut subs, &[(TAG_PAIR, vec![p2])], EMPTY_TAG_UNION_VAR);
    assert!(is_success(&unify(&mut subs, value, annot)));
}

#[test]
fn nested_tag_union() {
    // Maybe a : [Nothing, Just a]; x : Maybe (Maybe Int)
    let mut subs = Subs::new();
    let inner_p = int_type(&mut subs);
    let inner_ext = flex(&mut subs);
    let inner = tag_union(&mut subs, &[(TAG_JUST, vec![inner_p])], inner_ext);
    let outer_ext = flex(&mut subs);
    let value = tag_union(&mut subs, &[(TAG_JUST, vec![inner])], outer_ext);
    let inner_annot = maybe_int_type(&mut subs);
    let outer_real = tag_union(
        &mut subs,
        &[(TAG_NOTHING, Vec::new()), (TAG_JUST, vec![inner_annot])],
        EMPTY_TAG_UNION_VAR,
    );
    let annot = alias(&mut subs, SYM_MAYBE, vec![(NAME_A, inner_annot)], outer_real);
    assert!(is_success(&unify(&mut subs, value, annot)));
}

#[test]
fn unit_type() {
    // Unit : [Unit]; v : Unit
    let mut subs = Subs::new();
    let unit_real = tag_union(&mut subs, &[(TAG_UNIT, Vec::new())], EMPTY_TAG_UNION_VAR);
    let unit = alias(&mut subs, SYM_UNIT, Vec::new(), unit_real);
    let ext = flex(&mut subs);
    let value = tag_union(&mut subs, &[(TAG_UNIT, Vec::new())], ext);
    assert!(is_success(&unify(&mut subs, value, unit)));
}

#[test]
fn nested_record_load() {
    // x = { a: { b: 0x5 } }; x.a.b: accessing .a unifies x's type with an
    // open record holding field a
    let mut subs = Subs::new();
    let b_val = int_type(&mut subs);
    let mut inner_fields = FieldMap::new();
    inner_fields.insert(2, RecordField::Required(b_val));
    let inner = subs.fresh(desc(Content::Structure(FlatType::Record(
        inner_fields,
        EMPTY_RECORD_VAR,
    ))));
    let mut outer_fields = FieldMap::new();
    outer_fields.insert(1, RecordField::Required(inner));
    let x = subs.fresh(desc(Content::Structure(FlatType::Record(
        outer_fields,
        EMPTY_RECORD_VAR,
    ))));
    let a_access = flex(&mut subs);
    let mut access_fields = FieldMap::new();
    access_fields.insert(1, RecordField::Required(a_access));
    let access_ext = flex(&mut subs);
    let access = subs.fresh(desc(Content::Structure(FlatType::Record(
        access_fields,
        access_ext,
    ))));
    assert!(is_success(&unify(&mut subs, x, access)));
    // The accessed field resolved to the inner record.
    assert!(subs.equivalent(a_access, inner));
}
