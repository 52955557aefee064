//! The keyed collections, the store primitives, and the slice helper.

use roc_unify::collections::{
    default_hasher, get_shared, get_shared_tags, insert_all, join_strings, relative_complement,
    tag_relative_complement, tag_union, union, FieldMap, TagMap, VarSet,
};
use roc_unify::subs::{Subs, EMPTY_RECORD_VAR, EMPTY_TAG_UNION_VAR};
use roc_unify::types::{Content, Descriptor, FlatType, RecordField, MARK_NONE};
use roc_unify::vec_result::{get_res, EdError};
use std::hash::{BuildHasher, Hasher};

fn desc(content: Content) -> Descriptor {
    Descriptor { content, rank: 0, mark: MARK_NONE, copy: None }
}

#[test]
fn union_keeps_the_left_value() {
    let mut a = FieldMap::new();
    a.insert(1, RecordField::Required(10));
    a.insert(2, RecordField::Optional(20));
    let mut b = FieldMap::new();
    b.insert(2, RecordField::Demanded(99));
    b.insert(3, RecordField::Required(30));
    let merged = union(a, &b);
    assert_eq!(merged.len(), 3);
    assert_eq!(merged.get(1), Some(RecordField::Required(10)));
    assert_eq!(merged.get(2), Some(RecordField::Optional(20)));
    assert_eq!(merged.get(3), Some(RecordField::Required(30)));
}

#[test]
fn relative_complement_is_asymmetric() {
    let mut a = FieldMap::new();
    a.insert(1, RecordField::Required(10));
    a.insert(2, RecordField::Required(20));
    let mut b = FieldMap::new();
    b.insert(2, RecordField::Required(99));
    b.insert(3, RecordField::Required(30));
    let left = relative_complement(&a, &b);
    assert_eq!(left.len(), 1);
    assert_eq!(left.get(1), Some(RecordField::Required(10)));
    assert!(left.get(2).is_none());
    let right = relative_complement(&b, &a);
    assert_eq!(right.len(), 1);
    assert_eq!(right.get(3), Some(RecordField::Required(30)));
}

#[test]
fn get_shared_pairs_both_sides() {
    let mut a = FieldMap::new();
    a.insert(1, RecordField::Required(10));
    a.insert(2, RecordField::Optional(20));
    let mut b = FieldMap::new();
    b.insert(2, RecordField::Demanded(99));
    let shared = get_shared(&a, &b);
    assert_eq!(shared.len(), 1);
    assert_eq!(
        shared[0],
        (2, RecordField::Optional(20), RecordField::Demanded(99))
    );
}

#[test]
fn insert_all_overwrites() {
    let mut m = FieldMap::new();
    m.insert(1, RecordField::Required(10));
    let elems = vec![
        (1, RecordField::Optional(11)),
        (2, RecordField::Required(20)),
    ];
    insert_all(&mut m, &elems);
    assert_eq!(m.len(), 2);
    assert_eq!(m.get(1), Some(RecordField::Optional(11)));
    assert_eq!(m.get(2), Some(RecordField::Required(20)));
}

#[test]
fn tag_map_union_and_complement() {
    let mut a = TagMap::new();
    a.insert(1, vec![10, 11]);
    let mut b = TagMap::new();
    b.insert(1, vec![99]);
    b.insert(2, vec![20]);
    let merged = tag_union(a.clone(), &b);
    assert_eq!(merged.len(), 2);
    assert_eq!(merged.get(1).cloned(), Some(vec![10, 11]));
    assert_eq!(merged.get(2).cloned(), Some(vec![20]));
    let only_b = tag_relative_complement(&b, &a);
    assert_eq!(only_b.len(), 1);
    assert_eq!(only_b.get(2).cloned(), Some(vec![20]));
    let shared = get_shared_tags(&a, &b);
    assert_eq!(shared.len(), 1);
    assert_eq!(shared[0], (1, vec![10, 11], vec![99]));
}

#[test]
fn var_set_deduplicates() {
    let mut s = VarSet::new();
    s.insert(4);
    s.insert(4);
    s.insert(7);
    assert_eq!(s.len(), 2);
    assert!(s.contains(4));
    assert!(s.contains(7));
    assert!(!s.contains(5));
}

#[test]
fn store_fresh_union_equivalent() {
    let mut subs = Subs::new();
    assert_eq!(subs.var_count(), 2);
    let a = subs.fresh(desc(Content::FlexVar(None)));
    let b = subs.fresh(desc(Content::FlexVar(Some(1))));
    assert!(!subs.equivalent(a, b));
    assert_eq!(subs.get_root_key(a), a);
    subs.union(a, b, desc(Content::RigidVar(2)));
    assert!(subs.equivalent(a, b));
    assert_eq!(subs.get(a).content, Content::RigidVar(2));
    assert_eq!(subs.get(b).content, Content::RigidVar(2));
    assert_eq!(subs.get_root_key(a), subs.get_root_key(b));
}

#[test]
fn store_preinterned_empty_structures() {
    let subs = Subs::new();
    assert_eq!(
        subs.get(EMPTY_RECORD_VAR).content,
        Content::Structure(FlatType::EmptyRecord)
    );
    assert_eq!(
        subs.get(EMPTY_TAG_UNION_VAR).content,
        Content::Structure(FlatType::EmptyTagUnion)
    );
}

#[test]
fn set_content_keeps_rank() {
    let mut subs = Subs::new();
    let a = subs.fresh(Descriptor {
        content: Content::FlexVar(None),
        rank: 7,
        mark: MARK_NONE,
        copy: None,
    });
    subs.set_content(a, Content::RigidVar(3));
    let d = subs.get(a);
    assert_eq!(d.content, Content::RigidVar(3));
    assert_eq!(d.rank, 7);
}

#[test]
fn union_takes_the_minimum_rank() {
    let mut subs = Subs::new();
    let a = subs.fresh(Descriptor {
        content: Content::FlexVar(None),
        rank: 4,
        mark: MARK_NONE,
        copy: None,
    });
    let b = subs.fresh(Descriptor {
        content: Content::FlexVar(None),
        rank: 9,
        mark: MARK_NONE,
        copy: None,
    });
    let out = roc_unify::unify::unify(&mut subs, a, b);
    assert!(matches!(out, roc_unify::unify::Unified::Success(_)));
    assert_eq!(subs.get(a).rank, 4);
    assert_eq!(subs.get(a).mark, MARK_NONE);
    assert_eq!(subs.get(a).copy, None);
}

#[test]
fn get_res_in_bounds() {
    let data = [10, 20, 30];
    let r = get_res(1, &data);
    assert_eq!(r, Ok(&20));
}

#[test]
fn get_res_out_of_bounds() {
    let data = [10, 20, 30];
    match get_res(5, &data) {
        Err(EdError::OutOfBounds { index, collection_name, len }) => {
            assert_eq!(index, 5);
            assert_eq!(len, 3);
            assert_eq!(collection_name, "Slice");
        },
        Ok(_) => panic!("an index past the end must be rejected"),
    }
}

#[test]
fn join_strings_places_separators() {
    let strings: Vec<&str> = vec!["a", "bc", "d"];
    assert_eq!(join_strings(&strings, "--"), "a--bc--d");
    let one: Vec<&str> = vec!["solo"];
    assert_eq!(join_strings(&one, "--"), "solo");
    let none: Vec<&str> = Vec::new();
    assert_eq!(join_strings(&none, "--"), "");
}

#[test]
fn arena_join_copies_into_the_arena() {
    let arena = bumpalo::Bump::new();
    let strings: Vec<&str> = vec!["x", "y", "z"];
    let joined = roc_unify::collections::arena_join(&arena, &strings, ", ");
    assert_eq!(joined.as_str(), "x, y, z");
}

#[test]
fn default_hasher_builds_wyhash() {
    let build = default_hasher();
    let mut h1 = build.build_hasher();
    h1.write(b"abc");
    let mut h2 = build.build_hasher();
    h2.write(b"abc");
    assert_eq!(h1.finish(), h2.finish());
}
