//! Small verified keyed collections.
//!
//! The unifier treats its field and tag collections as unordered maps with
//! value equality; iteration order is irrelevant to correctness. They are
//! realised here as vectors of pairs with distinct keys, viewed as `Map`s.

use vstd::prelude::*;
use vstd::seq_lib::*;
use vstd::set_lib::*;
use vstd::string::StringExecFns;

use crate::types::{Lowercase, RecordField, TagName, Variable};

verus! {

broadcast use vstd::set::group_set_axioms, vstd::seq::group_seq_axioms;

// ---------------------------------------------------------------------------
// Sequences of key/value pairs, viewed as maps.
// ---------------------------------------------------------------------------

/// No key occurs twice.
pub open spec fn distinct_keys<V>(s: Seq<(u64, V)>) -> bool {
    forall|i: int, j: int| 0 <= i < j < s.len() ==> (#[trigger] s[i]).0 != (#[trigger] s[j]).0
}

/// The map described by a sequence of pairs; a later pair wins over an
/// earlier one with the same key.
pub open spec fn map_of<V>(s: Seq<(u64, V)>) -> Map<u64, V>
    decreases s.len(),
{
    if s.len() == 0 {
        Map::empty()
    } else {
        map_of(s.drop_last()).insert(s.last().0, s.last().1)
    }
}

/// A key is in the map exactly when some pair carries it.
pub proof fn lemma_map_of_dom<V>(s: Seq<(u64, V)>, k: u64)
    ensures
        map_of(s).dom().contains(k) <==> exists|i: int| 0 <= i < s.len() && (#[trigger] s[i]).0
            == k,
    decreases s.len(),
{
    if s.len() == 0 {
    } else {
        lemma_map_of_dom(s.drop_last(), k);
        if s.last().0 == k {
            assert((s[s.len() - 1]).0 == k);
        } else {
            if map_of(s).dom().contains(k) {
                let i = choose|i: int| 0 <= i < s.drop_last().len() && (#[trigger] s.drop_last()[i]).0
                    == k;
                assert((s[i]).0 == k);
            }
            if exists|i: int| 0 <= i < s.len() && (#[trigger] s[i]).0 == k {
                let i = choose|i: int| 0 <= i < s.len() && (#[trigger] s[i]).0 == k;
                assert(i < s.len() - 1);
                assert((s.drop_last()[i]).0 == k);
            }
        }
    }
}

/// With distinct keys, the pair at any index is what the map holds.
pub proof fn lemma_map_of_index<V>(s: Seq<(u64, V)>, i: int)
    requires
        distinct_keys(s),
        0 <= i < s.len(),
    ensures
        map_of(s).dom().contains((s[i]).0),
        map_of(s)[(s[i]).0] == (s[i]).1,
    decreases s.len(),
{
    if i == s.len() - 1 {
    } else {
        assert(distinct_keys(s.drop_last())) by {
            assert forall|x: int, y: int| 0 <= x < y < s.drop_last().len() implies (
            #[trigger] s.drop_last()[x]).0 != (#[trigger] s.drop_last()[y]).0 by {
                assert((s[x]).0 != (s[y]).0);
            }
        }
        lemma_map_of_index(s.drop_last(), i);
        assert((s.drop_last()[i]).0 == (s[i]).0);
        assert((s.last()).0 != (s[i]).0);
    }
}

/// Appending a pair inserts it into the map.
pub proof fn lemma_map_of_push<V>(s: Seq<(u64, V)>, p: (u64, V))
    ensures
        map_of(s.push(p)) == map_of(s).insert(p.0, p.1),
{
    assert(s.push(p).drop_last() =~= s);
    assert(s.push(p).last() == p);
}

/// One loop step over a pair sequence extends the prefix map by one entry.
pub proof fn lemma_map_of_take_step<V>(s: Seq<(u64, V)>, i: int)
    requires
        0 <= i < s.len(),
    ensures
        map_of(s.take(i + 1)) == map_of(s.take(i)).insert((s[i]).0, (s[i]).1),
{
    assert(s.take(i + 1) =~= s.take(i).push(s[i]));
    lemma_map_of_push(s.take(i), s[i]);
}

/// Replacing the value at an index rewrites that key's entry.
pub proof fn lemma_map_of_update<V>(s: Seq<(u64, V)>, i: int, v: V)
    requires
        distinct_keys(s),
        0 <= i < s.len(),
    ensures
        map_of(s.update(i, ((s[i]).0, v))) == map_of(s).insert((s[i]).0, v),
        distinct_keys(s.update(i, ((s[i]).0, v))),
    decreases s.len(),
{
    let s2 = s.update(i, ((s[i]).0, v));
    assert(distinct_keys(s2)) by {
        assert forall|x: int, y: int| 0 <= x < y < s2.len() implies (#[trigger] s2[x]).0 != (
        #[trigger] s2[y]).0 by {
            assert((s[x]).0 != (s[y]).0);
        }
    }
    if i == s.len() - 1 {
        assert(s2.drop_last() =~= s.drop_last());
        assert(map_of(s2) =~= map_of(s).insert((s[i]).0, v));
    } else {
        assert(distinct_keys(s.drop_last())) by {
            assert forall|x: int, y: int| 0 <= x < y < s.drop_last().len() implies (
            #[trigger] s.drop_last()[x]).0 != (#[trigger] s.drop_last()[y]).0 by {
                assert((s[x]).0 != (s[y]).0);
            }
        }
        assert(s2.drop_last() =~= s.drop_last().update(i, ((s[i]).0, v)));
        assert((s.drop_last()[i]).0 == (s[i]).0);
        lemma_map_of_update(s.drop_last(), i, v);
        assert((s.last()).0 != (s[i]).0);
        assert(map_of(s2) =~= map_of(s).insert((s[i]).0, v));
    }
}

// ---------------------------------------------------------------------------
// Record field maps.
// ---------------------------------------------------------------------------

/// A map from field names to record fields, with distinct keys.
#[derive(Debug, PartialEq, Eq)]
pub struct FieldMap {
    pairs: Vec<(Lowercase, RecordField)>,
}

impl View for FieldMap {
    type V = Map<Lowercase, RecordField>;

    open spec fn view(&self) -> Map<Lowercase, RecordField> {
        map_of(self.kseq())
    }
}

impl FieldMap {
    /// The underlying pair sequence.
    pub closed spec fn kseq(&self) -> Seq<(Lowercase, RecordField)> {
        self.pairs@
    }

    /// The keys are distinct.
    pub open spec fn wf(&self) -> bool {
        distinct_keys(self.kseq())
    }

    /// The empty map.
    pub fn new() -> (m: FieldMap)
        ensures
            m.wf(),
            m.kseq() == Seq::<(Lowercase, RecordField)>::empty(),
            m@ == Map::<Lowercase, RecordField>::empty(),
    {
        FieldMap { pairs: Vec::new() }
    }

    /// How many fields the map holds.
    pub fn len(&self) -> (r: usize)
        ensures
            r == self.kseq().len(),
    {
        self.pairs.len()
    }

    /// Whether the map holds no field.
    pub fn is_empty(&self) -> (r: bool)
        ensures
            r == (self.kseq().len() == 0),
    {
        self.pairs.len() == 0
    }

    /// The pair at an iteration index.
    pub fn pair_at(&self, i: usize) -> (r: (Lowercase, RecordField))
        requires
            i < self.kseq().len(),
        ensures
            r == self.kseq()[i as int],
    {
        self.pairs[i]
    }

    /// Whether the map holds the key.
    pub fn contains_key(&self, k: Lowercase) -> (r: bool)
        requires
            self.wf(),
        ensures
            r == self@.dom().contains(k),
    {
        let n = self.pairs.len();
        let mut i: usize = 0;
        while i < n
            invariant
                n == self.kseq().len(),
                i <= n,
                self.wf(),
                forall|j: int| 0 <= j < i ==> (#[trigger] self.kseq()[j]).0 != k,
            decreases n - i,
        {
            if self.pairs[i].0 == k {
                proof {
                    lemma_map_of_index(self.kseq(), i as int);
                }
                return true;
            }
            i = i + 1;
        }
        proof {
            lemma_map_of_dom(self.kseq(), k);
        }
        false
    }

    /// The field stored under the key, if any.
    pub fn get(&self, k: Lowercase) -> (r: Option<RecordField>)
        requires
            self.wf(),
        ensures
            (match r {
                Some(f) => self@.dom().contains(k) && self@[k] == f,
                None => !self@.dom().contains(k),
            }),
    {
        let n = self.pairs.len();
        let mut i: usize = 0;
        while i < n
            invariant
                n == self.kseq().len(),
                i <= n,
                self.wf(),
                forall|j: int| 0 <= j < i ==> (#[trigger] self.kseq()[j]).0 != k,
            decreases n - i,
        {
            if self.pairs[i].0 == k {
                proof {
                    lemma_map_of_index(self.kseq(), i as int);
                }
                return Some(self.pairs[i].1);
            }
            i = i + 1;
        }
        proof {
            lemma_map_of_dom(self.kseq(), k);
        }
        None
    }

    /// Stores the field under the key, replacing any previous entry.
    pub fn insert(&mut self, k: Lowercase, v: RecordField)
        requires
            old(self).wf(),
        ensures
            final(self).wf(),
            final(self)@ == old(self)@.insert(k, v),
            final(self).kseq().len() <= old(self).kseq().len() + 1,
    {
        let n = self.pairs.len();
        let mut i: usize = 0;
        while i < n
            invariant
                n == self.kseq().len(),
                i <= n,
                self.wf(),
                self.kseq() == old(self).kseq(),
                forall|j: int| 0 <= j < i ==> (#[trigger] self.kseq()[j]).0 != k,
            decreases n - i,
        {
            if self.pairs[i].0 == k {
                proof {
                    lemma_map_of_update(self.kseq(), i as int, v);
                }
                self.pairs[i] = (k, v);
                return ;
            }
            i = i + 1;
        }
        proof {
            lemma_map_of_dom(self.kseq(), k);
            lemma_map_of_push(self.kseq(), (k, v));
            assert forall|x: int, y: int| 0 <= x < y < self.kseq().push((k, v)).len() implies (
            #[trigger] self.kseq().push((k, v))[x]).0 != (#[trigger] self.kseq().push((k, v))[y]).0
                by {
                if y < self.kseq().len() {
                    assert((self.kseq()[x]).0 != (self.kseq()[y]).0);
                } else {
                    assert((self.kseq()[x]).0 != k);
                }
            }
        }
        self.pairs.push((k, v));
    }
}

impl FieldMap {
    /// Replaces the field at an iteration index, keeping its key.
    pub fn value_update(&mut self, i: usize, v: RecordField)
        requires
            old(self).wf(),
            i < old(self).kseq().len(),
        ensures
            final(self).wf(),
            final(self).kseq() == old(self).kseq().update(
                i as int,
                ((old(self).kseq()[i as int]).0, v),
            ),
            final(self)@ == old(self)@.insert((old(self).kseq()[i as int]).0, v),
    {
        proof {
            lemma_map_of_update(self.kseq(), i as int, v);
        }
        let k = self.pairs[i].0;
        self.pairs[i] = (k, v);
    }
}

impl Clone for FieldMap {
    /// The copy has the same pairs.
    fn clone(&self) -> (r: Self)
        ensures
            r.kseq() == self.kseq(),
            r@ == self@,
            self.wf() ==> r.wf(),
    {
        let mut pairs: Vec<(Lowercase, RecordField)> = Vec::new();
        let mut i: usize = 0;
        while i < self.pairs.len()
            invariant
                i <= self.pairs@.len(),
                pairs@ == self.pairs@.take(i as int),
            decreases self.pairs@.len() - i,
        {
            pairs.push(self.pairs[i]);
            i = i + 1;
            proof {
                assert(pairs@ =~= self.pairs@.take(i as int));
            }
        }
        proof {
            assert(self.pairs@.take(self.pairs@.len() as int) =~= self.pairs@);
        }
        FieldMap { pairs }
    }
}

/// Keeps both maps' fields; on a shared key the left map's field wins.
pub fn union(map: FieldMap, other: &FieldMap) -> (r: FieldMap)
    requires
        map.wf(),
        other.wf(),
    ensures
        r.wf(),
        r@ == other@.union_prefer_right(map@),
{
    let ghost m0 = map@;
    let mut acc = map;
    let n = other.len();
    let mut i: usize = 0;
    proof {
        assert(acc@ =~= map_of(other.kseq().take(0)).union_prefer_right(m0));
    }
    while i < n
        invariant
            n == other.kseq().len(),
            i <= n,
            other.wf(),
            acc.wf(),
            acc@ == map_of(other.kseq().take(i as int)).union_prefer_right(m0),
        decreases n - i,
    {
        let (k, v) = other.pair_at(i);
        proof {
            lemma_map_of_take_step(other.kseq(), i as int);
        }
        if !acc.contains_key(k) {
            acc.insert(k, v);
            proof {
                assert(acc@ =~= map_of(other.kseq().take(i + 1)).union_prefer_right(m0));
            }
        } else {
            proof {
                // The key is already present: either the base map holds it, or
                // an earlier pair of `other` holds it, which the distinct keys
                // of `other` rule out.
                if !m0.dom().contains(k) {
                    lemma_map_of_dom(other.kseq().take(i as int), k);
                    let j = choose|j: int| 0 <= j < other.kseq().take(i as int).len() && (
                    #[trigger] other.kseq().take(i as int)[j]).0 == k;
                    assert((other.kseq()[j]).0 == (other.kseq()[i as int]).0);
                    assert(false);
                }
                assert(acc@ =~= map_of(other.kseq().take(i + 1)).union_prefer_right(m0));
            }
        }
        i = i + 1;
    }
    proof {
        assert(other.kseq().take(n as int) =~= other.kseq());
    }
    acc
}

/// The fields of `map` whose keys do not occur in `other`.
pub fn relative_complement(map: &FieldMap, other: &FieldMap) -> (r: FieldMap)
    requires
        map.wf(),
        other.wf(),
    ensures
        r.wf(),
        r@ == map@.remove_keys(other@.dom()),
{
    let mut acc = FieldMap::new();
    let n = map.len();
    let mut i: usize = 0;
    proof {
        assert(acc@ =~= map_of(map.kseq().take(0)).remove_keys(other@.dom()));
    }
    while i < n
        invariant
            n == map.kseq().len(),
            i <= n,
            map.wf(),
            other.wf(),
            acc.wf(),
            acc@ == map_of(map.kseq().take(i as int)).remove_keys(other@.dom()),
        decreases n - i,
    {
        let (k, v) = map.pair_at(i);
        proof {
            lemma_map_of_take_step(map.kseq(), i as int);
        }
        if !other.contains_key(k) {
            acc.insert(k, v);
        }
        proof {
            assert(acc@ =~= map_of(map.kseq().take(i + 1)).remove_keys(other@.dom()));
        }
        i = i + 1;
    }
    proof {
        assert(map.kseq().take(n as int) =~= map.kseq());
    }
    acc
}

/// The fields shared by both maps, each key paired with both sides' fields.
pub fn get_shared(a: &FieldMap, b: &FieldMap) -> (r: Vec<(Lowercase, RecordField, RecordField)>)
    requires
        a.wf(),
        b.wf(),
    ensures
        forall|x: int, y: int| 0 <= x < y < r@.len() ==> (#[trigger] r@[x]).0 != (#[trigger] r@[y]).0,
        forall|x: int| 0 <= x < r@.len() ==> {
            let k = (#[trigger] r@[x]).0;
            a@.dom().contains(k) && b@.dom().contains(k) && a@[k] == r@[x].1 && b@[k] == r@[x].2
        },
        forall|k: Lowercase| a@.dom().contains(k) && b@.dom().contains(k) ==> exists|x: int|
            0 <= x < r@.len() && (#[trigger] r@[x]).0 == k,
{
    let mut out: Vec<(Lowercase, RecordField, RecordField)> = Vec::new();
    let n = a.len();
    let mut i: usize = 0;
    while i < n
        invariant
            n == a.kseq().len(),
            i <= n,
            a.wf(),
            b.wf(),
            forall|x: int| 0 <= x < out@.len() ==> exists|j: int|
                0 <= j < i && (#[trigger] out@[x]).0 == (#[trigger] a.kseq()[j]).0,
            forall|x: int, y: int| 0 <= x < y < out@.len() ==> (#[trigger] out@[x]).0 != (
            #[trigger] out@[y]).0,
            forall|x: int| 0 <= x < out@.len() ==> {
                let k = (#[trigger] out@[x]).0;
                a@.dom().contains(k) && b@.dom().contains(k) && a@[k] == out@[x].1 && b@[k]
                    == out@[x].2
            },
            forall|j: int| 0 <= j < i && b@.dom().contains((#[trigger] a.kseq()[j]).0)
                ==> exists|x: int| 0 <= x < out@.len() && (#[trigger] out@[x]).0 == (a.kseq()[j]).0,
        decreases n - i,
    {
        let ghost out_prev = out@;
        let (k, fa) = a.pair_at(i);
        match b.get(k) {
            Some(fb) => {
                proof {
                    lemma_map_of_index(a.kseq(), i as int);
                    // The new key differs from every key already collected.
                    assert forall|x: int| 0 <= x < out@.len() implies (#[trigger] out@[x]).0 != k by {
                        let j = choose|j: int| 0 <= j < i && (out@[x]).0 == (#[trigger] a.kseq()[j]).0;
                        assert((a.kseq()[j]).0 != (a.kseq()[i as int]).0);
                    }
                }
                out.push((k, fa, fb));
            },
            None => {},
        }
        proof {
            assert forall|j: int| 0 <= j < i + 1 && b@.dom().contains((#[trigger] a.kseq()[j]).0)
                implies exists|x: int| 0 <= x < out@.len() && (#[trigger] out@[x]).0 == (
            a.kseq()[j]).0 by {
                if j < i {
                    let x = choose|x: int| 0 <= x < out_prev.len() && (#[trigger] out_prev[x]).0 == (
                    a.kseq()[j]).0;
                    assert(0 <= x < out@.len() && (out@[x]).0 == (a.kseq()[j]).0);
                } else {
                    assert((out@[out@.len() - 1]).0 == (a.kseq()[i as int]).0);
                }
            }
        }
        i = i + 1;
    }
    proof {
        assert forall|k: Lowercase| a@.dom().contains(k) && b@.dom().contains(k) implies exists|
            x: int,
        | 0 <= x < out@.len() && (#[trigger] out@[x]).0 == k by {
            lemma_map_of_dom(a.kseq(), k);
            let j = choose|j: int| 0 <= j < a.kseq().len() && (#[trigger] a.kseq()[j]).0 == k;
            assert(b@.dom().contains((a.kseq()[j]).0));
        }
    }
    out
}

// ---------------------------------------------------------------------------
// Tag maps.
// ---------------------------------------------------------------------------

/// Copies a vector of variables (also exported by the types module; repeated
/// here to keep this module self-contained).
fn clone_payload(vs: &Vec<Variable>) -> (r: Vec<Variable>)
    ensures
        r@ == vs@,
{
    let mut out: Vec<Variable> = Vec::new();
    let mut i: usize = 0;
    while i < vs.len()
        invariant
            i <= vs@.len(),
            out@ == vs@.take(i as int),
        decreases vs@.len() - i,
    {
        out.push(vs[i]);
        i = i + 1;
        proof {
            assert(out@ =~= vs@.take(i as int));
        }
    }
    proof {
        assert(vs@.take(vs@.len() as int) =~= vs@);
    }
    out
}

/// A map from tag names to ordered payload variable lists, with distinct keys.
#[derive(Debug, PartialEq, Eq)]
pub struct TagMap {
    pairs: Vec<(TagName, Vec<Variable>)>,
}

impl View for TagMap {
    type V = Map<TagName, Seq<Variable>>;

    open spec fn view(&self) -> Map<TagName, Seq<Variable>> {
        map_of(self.kseq())
    }
}

impl TagMap {
    /// The pair sequence, with payloads abstracted to sequences.
    pub closed spec fn kseq(&self) -> Seq<(TagName, Seq<Variable>)> {
        self.pairs@.map_values(|p: (TagName, Vec<Variable>)| (p.0, p.1@))
    }

    /// The keys are distinct.
    pub open spec fn wf(&self) -> bool {
        distinct_keys(self.kseq())
    }

    /// The empty map.
    pub fn new() -> (m: TagMap)
        ensures
            m.wf(),
            m.kseq() == Seq::<(TagName, Seq<Variable>)>::empty(),
            m@ == Map::<TagName, Seq<Variable>>::empty(),
    {
        let m = TagMap { pairs: Vec::new() };
        proof {
            assert(m.kseq() =~= Seq::<(TagName, Seq<Variable>)>::empty());
        }
        m
    }

    /// How many tags the map holds.
    pub fn len(&self) -> (r: usize)
        ensures
            r == self.kseq().len(),
    {
        self.pairs.len()
    }

    /// Whether the map holds no tag.
    pub fn is_empty(&self) -> (r: bool)
        ensures
            r == (self.kseq().len() == 0),
    {
        self.pairs.len() == 0
    }

    /// The tag name at an iteration index.
    pub fn key_at(&self, i: usize) -> (r: TagName)
        requires
            i < self.kseq().len(),
        ensures
            r == (self.kseq()[i as int]).0,
    {
        self.pairs[i].0
    }

    /// The payload at an iteration index.
    pub fn payload_at(&self, i: usize) -> (r: &Vec<Variable>)
        requires
            i < self.kseq().len(),
        ensures
            r@ == (self.kseq()[i as int]).1,
    {
        &self.pairs[i].1
    }

    /// Whether the map holds the tag.
    pub fn contains_key(&self, k: TagName) -> (r: bool)
        requires
            self.wf(),
        ensures
            r == self@.dom().contains(k),
    {
        let n = self.pairs.len();
        let mut i: usize = 0;
        while i < n
            invariant
                n == self.kseq().len(),
                i <= n,
                self.wf(),
                forall|j: int| 0 <= j < i ==> (#[trigger] self.kseq()[j]).0 != k,
            decreases n - i,
        {
            if self.pairs[i].0 == k {
                proof {
                    lemma_map_of_index(self.kseq(), i as int);
                }
                return true;
            }
            i = i + 1;
        }
        proof {
            lemma_map_of_dom(self.kseq(), k);
        }
        false
    }

    /// The payload stored under the tag, if any.
    pub fn get(&self, k: TagName) -> (r: Option<&Vec<Variable>>)
        requires
            self.wf(),
        ensures
            (match r {
                Some(vs) => self@.dom().contains(k) && self@[k] == vs@,
                None => !self@.dom().contains(k),
            }),
    {
        let n = self.pairs.len();
        let mut i: usize = 0;
        while i < n
            invariant
                n == self.kseq().len(),
                i <= n,
                self.wf(),
                forall|j: int| 0 <= j < i ==> (#[trigger] self.kseq()[j]).0 != k,
            decreases n - i,
        {
            if self.pairs[i].0 == k {
                proof {
                    lemma_map_of_index(self.kseq(), i as int);
                }
                return Some(&self.pairs[i].1);
            }
            i = i + 1;
        }
        proof {
            lemma_map_of_dom(self.kseq(), k);
        }
        None
    }

    /// Stores the payload under the tag, replacing any previous entry.
    pub fn insert(&mut self, k: TagName, v: Vec<Variable>)
        requires
            old(self).wf(),
        ensures
            final(self).wf(),
            final(self)@ == old(self)@.insert(k, v@),
            final(self).kseq().len() <= old(self).kseq().len() + 1,
    {
        let ghost vv = v@;
        let n = self.pairs.len();
        let mut i: usize = 0;
        while i < n
            invariant
                n == self.kseq().len(),
                i <= n,
                self.wf(),
                self.kseq() == old(self).kseq(),
                v@ == vv,
                forall|j: int| 0 <= j < i ==> (#[trigger] self.kseq()[j]).0 != k,
            decreases n - i,
        {
            if self.pairs[i].0 == k {
                proof {
                    lemma_map_of_update(self.kseq(), i as int, vv);
                }
                self.pairs[i] = (k, v);
                proof {
                    assert(self.kseq() =~= old(self).kseq().update(i as int, (k, vv)));
                }
                return ;
            }
            i = i + 1;
        }
        proof {
            lemma_map_of_dom(self.kseq(), k);
            lemma_map_of_push(self.kseq(), (k, vv));
            assert forall|x: int, y: int| 0 <= x < y < self.kseq().push((k, vv)).len() implies (
            #[trigger] self.kseq().push((k, vv))[x]).0 != (#[trigger] self.kseq().push((k, vv))[y]).0
                by {
                if y < self.kseq().len() {
                    assert((self.kseq()[x]).0 != (self.kseq()[y]).0);
                } else {
                    assert((self.kseq()[x]).0 != k);
                }
            }
        }
        self.pairs.push((k, v));
        proof {
            assert(self.kseq() =~= old(self).kseq().push((k, vv)));
        }
    }
}

impl TagMap {
    /// Replaces the payload at an iteration index, keeping its tag.
    pub fn payload_update(&mut self, i: usize, v: Vec<Variable>)
        requires
            old(self).wf(),
            i < old(self).kseq().len(),
        ensures
            final(self).wf(),
            final(self).kseq() == old(self).kseq().update(
                i as int,
                ((old(self).kseq()[i as int]).0, v@),
            ),
            final(self)@ == old(self)@.insert((old(self).kseq()[i as int]).0, v@),
    {
        let ghost vv = v@;
        proof {
            lemma_map_of_update(self.kseq(), i as int, vv);
        }
        let k = self.pairs[i].0;
        self.pairs[i] = (k, v);
        proof {
            assert(self.kseq() =~= old(self).kseq().update(
                i as int,
                ((old(self).kseq()[i as int]).0, vv),
            ));
        }
    }
}

impl Clone for TagMap {
    /// The copy has the same pairs.
    fn clone(&self) -> (r: Self)
        ensures
            r.kseq() == self.kseq(),
            r@ == self@,
            self.wf() ==> r.wf(),
    {
        let mut pairs: Vec<(TagName, Vec<Variable>)> = Vec::new();
        let mut i: usize = 0;
        while i < self.pairs.len()
            invariant
                i <= self.pairs@.len(),
                pairs@.len() == i,
                forall|j: int| 0 <= j < i ==> (#[trigger] pairs@[j]).0 == (self.pairs@[j]).0 && (
                pairs@[j]).1@ == (self.pairs@[j]).1@,
            decreases self.pairs@.len() - i,
        {
            let payload = clone_payload(&self.pairs[i].1);
            pairs.push((self.pairs[i].0, payload));
            i = i + 1;
        }
        let r = TagMap { pairs };
        proof {
            assert(r.kseq() =~= self.kseq());
        }
        r
    }
}

/// Keeps both maps' tags; on a shared key the left map's payload wins.
pub fn tag_union(map: TagMap, other: &TagMap) -> (r: TagMap)
    requires
        map.wf(),
        other.wf(),
    ensures
        r.wf(),
        r@ == other@.union_prefer_right(map@),
{
    let ghost m0 = map@;
    let mut acc = map;
    let n = other.len();
    let mut i: usize = 0;
    proof {
        assert(acc@ =~= map_of(other.kseq().take(0)).union_prefer_right(m0));
    }
    while i < n
        invariant
            n == other.kseq().len(),
            i <= n,
            other.wf(),
            acc.wf(),
            acc@ == map_of(other.kseq().take(i as int)).union_prefer_right(m0),
        decreases n - i,
    {
        let k = other.key_at(i);
        proof {
            lemma_map_of_take_step(other.kseq(), i as int);
        }
        if !acc.contains_key(k) {
            let v = clone_payload(other.payload_at(i));
            acc.insert(k, v);
            proof {
                assert(acc@ =~= map_of(other.kseq().take(i + 1)).union_prefer_right(m0));
            }
        } else {
            proof {
                if !m0.dom().contains(k) {
                    lemma_map_of_dom(other.kseq().take(i as int), k);
                    let j = choose|j: int| 0 <= j < other.kseq().take(i as int).len() && (
                    #[trigger] other.kseq().take(i as int)[j]).0 == k;
                    assert((other.kseq()[j]).0 == (other.kseq()[i as int]).0);
                    assert(false);
                }
                assert(acc@ =~= map_of(other.kseq().take(i + 1)).union_prefer_right(m0));
            }
        }
        i = i + 1;
    }
    proof {
        assert(other.kseq().take(n as int) =~= other.kseq());
    }
    acc
}

/// The tags of `map` whose keys do not occur in `other`.
pub fn tag_relative_complement(map: &TagMap, other: &TagMap) -> (r: TagMap)
    requires
        map.wf(),
        other.wf(),
    ensures
        r.wf(),
        r@ == map@.remove_keys(other@.dom()),
{
    let mut acc = TagMap::new();
    let n = map.len();
    let mut i: usize = 0;
    proof {
        assert(acc@ =~= map_of(map.kseq().take(0)).remove_keys(other@.dom()));
    }
    while i < n
        invariant
            n == map.kseq().len(),
            i <= n,
            map.wf(),
            other.wf(),
            acc.wf(),
            acc@ == map_of(map.kseq().take(i as int)).remove_keys(other@.dom()),
        decreases n - i,
    {
        let k = map.key_at(i);
        proof {
            lemma_map_of_take_step(map.kseq(), i as int);
        }
        if !other.contains_key(k) {
            let v = clone_payload(map.payload_at(i));
            acc.insert(k, v);
        }
        proof {
            assert(acc@ =~= map_of(map.kseq().take(i + 1)).remove_keys(other@.dom()));
        }
        i = i + 1;
    }
    proof {
        assert(map.kseq().take(n as int) =~= map.kseq());
    }
    acc
}

/// The tags shared by both maps, each key paired with both sides' payloads.
#[verifier::rlimit(50)]
pub fn get_shared_tags(a: &TagMap, b: &TagMap) -> (r: Vec<(TagName, Vec<Variable>, Vec<Variable>)>)
    requires
        a.wf(),
        b.wf(),
    ensures
        forall|x: int, y: int| 0 <= x < y < r@.len() ==> (#[trigger] r@[x]).0 != (#[trigger] r@[y]).0,
        forall|x: int| 0 <= x < r@.len() ==> {
            let k = (#[trigger] r@[x]).0;
            a@.dom().contains(k) && b@.dom().contains(k) && a@[k] == r@[x].1@ && b@[k] == r@[x].2@
        },
        forall|k: TagName| a@.dom().contains(k) && b@.dom().contains(k) ==> exists|x: int|
            0 <= x < r@.len() && (#[trigger] r@[x]).0 == k,
{
    let mut out: Vec<(TagName, Vec<Variable>, Vec<Variable>)> = Vec::new();
    let n = a.len();
    let mut i: usize = 0;
    while i < n
        invariant
            n == a.kseq().len(),
            i <= n,
            a.wf(),
            b.wf(),
            forall|x: int| 0 <= x < out@.len() ==> exists|j: int|
                0 <= j < i && (#[trigger] out@[x]).0 == (#[trigger] a.kseq()[j]).0,
            forall|x: int, y: int| 0 <= x < y < out@.len() ==> (#[trigger] out@[x]).0 != (
            #[trigger] out@[y]).0,
            forall|x: int| 0 <= x < out@.len() ==> {
                let k = (#[trigger] out@[x]).0;
                a@.dom().contains(k) && b@.dom().contains(k) && a@[k] == out@[x].1@ && b@[k]
                    == out@[x].2@
            },
            forall|j: int| 0 <= j < i && b@.dom().contains((#[trigger] a.kseq()[j]).0)
                ==> exists|x: int| 0 <= x < out@.len() && (#[trigger] out@[x]).0 == (a.kseq()[j]).0,
        decreases n - i,
    {
        let ghost out_prev = out@;
        let k = a.key_at(i);
        match b.get(k) {
            Some(pb) => {
                let fa = clone_payload(a.payload_at(i));
                let fb = clone_payload(pb);
                proof {
                    lemma_map_of_index(a.kseq(), i as int);
                    assert forall|x: int| 0 <= x < out@.len() implies (#[trigger] out@[x]).0 != k by {
                        let j = choose|j: int| 0 <= j < i && (out@[x]).0 == (#[trigger] a.kseq()[j]).0;
                        assert((a.kseq()[j]).0 != (a.kseq()[i as int]).0);
                    }
                }
                out.push((k, fa, fb));
            },
            None => {},
        }
        proof {
            assert forall|j: int| 0 <= j < i + 1 && b@.dom().contains((#[trigger] a.kseq()[j]).0)
                implies exists|x: int| 0 <= x < out@.len() && (#[trigger] out@[x]).0 == (
            a.kseq()[j]).0 by {
                if j < i {
                    let x = choose|x: int| 0 <= x < out_prev.len() && (#[trigger] out_prev[x]).0 == (
                    a.kseq()[j]).0;
                    assert(0 <= x < out@.len() && (out@[x]).0 == (a.kseq()[j]).0);
                } else {
                    assert((out@[out@.len() - 1]).0 == (a.kseq()[i as int]).0);
                }
            }
        }
        i = i + 1;
    }
    proof {
        assert forall|k: TagName| a@.dom().contains(k) && b@.dom().contains(k) implies exists|
            x: int,
        | 0 <= x < out@.len() && (#[trigger] out@[x]).0 == k by {
            lemma_map_of_dom(a.kseq(), k);
            let j = choose|j: int| 0 <= j < a.kseq().len() && (#[trigger] a.kseq()[j]).0 == k;
            assert(b@.dom().contains((a.kseq()[j]).0));
        }
    }
    out
}

// ---------------------------------------------------------------------------
// Variable sets.
// ---------------------------------------------------------------------------

/// A set of variables, realised as a duplicate-free vector.
#[derive(Debug, PartialEq, Eq)]
pub struct VarSet {
    items: Vec<Variable>,
}

impl View for VarSet {
    type V = Set<Variable>;

    open spec fn view(&self) -> Set<Variable> {
        self.seq().to_set()
    }
}

impl VarSet {
    /// The underlying sequence.
    pub closed spec fn seq(&self) -> Seq<Variable> {
        self.items@
    }

    /// No variable occurs twice.
    pub open spec fn wf(&self) -> bool {
        self.seq().no_duplicates()
    }

    /// The empty set.
    pub fn new() -> (s: VarSet)
        ensures
            s.wf(),
            s.seq() == Seq::<Variable>::empty(),
            s@ == Set::<Variable>::empty(),
    {
        let s = VarSet { items: Vec::new() };
        proof {
            assert(s@ =~= Set::<Variable>::empty());
        }
        s
    }

    /// How many variables the set holds.
    pub fn len(&self) -> (r: usize)
        ensures
            r == self.seq().len(),
    {
        self.items.len()
    }

    /// The variable at an iteration index.
    pub fn var_at(&self, i: usize) -> (r: Variable)
        requires
            i < self.seq().len(),
        ensures
            r == self.seq()[i as int],
            self@.contains(r),
    {
        proof {
            assert(self.seq().contains(self.seq()[i as int]));
        }
        self.items[i]
    }

    /// Whether the set holds the variable.
    pub fn contains(&self, v: Variable) -> (r: bool)
        ensures
            r == self@.contains(v),
    {
        let n = self.items.len();
        let mut i: usize = 0;
        while i < n
            invariant
                n == self.seq().len(),
                i <= n,
                forall|j: int| 0 <= j < i ==> self.seq()[j] != v,
            decreases n - i,
        {
            if self.items[i] == v {
                proof {
                    assert(self.seq().contains(v));
                }
                return true;
            }
            i = i + 1;
        }
        proof {
            assert(!self.seq().contains(v));
        }
        false
    }

    /// Adds the variable if it is not yet present.
    pub fn insert(&mut self, v: Variable)
        requires
            old(self).wf(),
        ensures
            final(self).wf(),
            final(self)@ == old(self)@.insert(v),
            final(self).seq() == (if old(self)@.contains(v) {
                old(self).seq()
            } else {
                old(self).seq().push(v)
            }),
            final(self).seq().len() == old(self).seq().len() + (if old(self)@.contains(v) {
                0int
            } else {
                1int
            }),
            forall|w: Variable| final(self)@.contains(w) <==> old(self)@.contains(w) || w == v,
    {
        if !self.contains(v) {
            self.items.push(v);
            proof {
                assert(self.seq() =~= old(self).seq().push(v));
                assert(self.seq().no_duplicates());
                old(self).seq().lemma_push_to_set_commute(v);
                assert(self@ =~= old(self)@.insert(v));
            }
        } else {
            proof {
                assert(self.seq() == old(self).seq());
                assert(old(self)@.contains(v));
                assert forall|w: Variable| old(self)@.insert(v).contains(w) implies
                    self@.contains(w) by {
                    if w != v {
                        assert(old(self)@.contains(w));
                    }
                }
                assert(self@ =~= old(self)@.insert(v));
            }
        }
    }
}

impl Clone for VarSet {
    /// The copy has the same members.
    fn clone(&self) -> (r: Self)
        ensures
            r.seq() == self.seq(),
            r@ == self@,
            self.wf() ==> r.wf(),
    {
        let items = clone_payload(&self.items);
        VarSet { items }
    }
}

/// A duplicate-free sequence of variables below `n` has at most `n` members.
pub proof fn lemma_varset_card(s: Seq<Variable>, n: int)
    requires
        0 <= n,
        s.no_duplicates(),
        forall|i: int| 0 <= i < s.len() ==> #[trigger] s[i] < n,
    ensures
        s.len() <= n,
{
    if s.len() == 0 {
        return ;
    }
    let ints = s.map_values(|v: Variable| v as int);
    assert(ints.no_duplicates()) by {
        assert forall|i: int, j: int| 0 <= i < j < ints.len() implies ints[i] != ints[j] by {
            assert(s[i] != s[j]);
        }
    }
    ints.unique_seq_to_set();
    assert(ints.to_set().subset_of(set_int_range(0, n))) by {
        assert forall|x: int| ints.to_set().contains(x) implies set_int_range(0, n).contains(x) by {
            let i = choose|i: int| 0 <= i < ints.len() && ints[i] == x;
            assert(s[i] < n);
        }
    }
    lemma_int_range(0, n);
    lemma_len_subset(ints.to_set(), set_int_range(0, n));
}

// ---------------------------------------------------------------------------
// Arena strings and the hasher.
// ---------------------------------------------------------------------------

#[verifier::external_type_specification]
#[verifier::external_body]
pub struct ExBump<const MIN_ALIGN: usize>(bumpalo::Bump<MIN_ALIGN>);

#[verifier::external_type_specification]
#[verifier::external_body]
pub struct ExBumpString<'a>(bumpalo::collections::String<'a>);

#[verifier::external_type_specification]
#[verifier::external_body]
pub struct ExWyHash(wyhash::WyHash);

#[verifier::external_type_specification]
#[verifier::external_body]
#[verifier::reject_recursive_types(H)]
pub struct ExBuildHasherDefault<H>(std::hash::BuildHasherDefault<H>);

/// The hasher factory that the compiler's hash maps are built with: fast
/// rather than flood-resistant, which a compiler does not need.
///
/// Relies on std::hash::BuildHasherDefault::default, which builds the
/// default-seeded hasher factory.
#[verifier::external_body]
pub fn default_hasher() -> std::hash::BuildHasherDefault<wyhash::WyHash> {
    std::hash::BuildHasherDefault::default()
}

/// The views of the strings in the list.
pub open spec fn str_views(strings: Seq<&str>) -> Seq<Seq<char>> {
    strings.map_values(|s: &str| s@)
}

/// The strings joined with the separator between consecutive elements.
pub open spec fn join_spec(strings: Seq<Seq<char>>, sep: Seq<char>) -> Seq<char>
    decreases strings.len(),
{
    if strings.len() == 0 {
        Seq::empty()
    } else if strings.len() == 1 {
        strings[0]
    } else {
        join_spec(strings.drop_last(), sep) + sep + strings.last()
    }
}

/// Joins the strings, putting the separator between consecutive elements.
pub fn join_strings(strings: &Vec<&str>, join_str: &str) -> (r: String)
    ensures
        r@ == join_spec(str_views(strings@), join_str@),
{
    let ghost views = str_views(strings@);
    let mut buf = String::from_str("");
    proof {
        reveal_strlit("");
        assert(buf@ =~= Seq::<char>::empty());
    }
    if strings.len() == 0 {
        return buf;
    }
    buf.append(strings[0]);
    proof {
        assert(buf@ =~= views[0]);
        assert(views.take(1).len() == 1);
        assert(views.take(1)[0] == views[0]);
    }
    let n = strings.len();
    let mut i: usize = 1;
    while i < n
        invariant
            1 <= i <= n,
            n == strings@.len(),
            views == str_views(strings@),
            buf@ == join_spec(views.take(i as int), join_str@),
        decreases n - i,
    {
        buf.append(join_str);
        buf.append(strings[i]);
        proof {
            assert(views.take(i + 1).drop_last() =~= views.take(i as int));
            assert(views.take(i + 1).last() == views[i as int]);
        }
        i = i + 1;
    }
    proof {
        assert(views.take(n as int) =~= views);
    }
    buf
}

/// The characters an arena-allocated string holds.
pub uninterp spec fn arena_str_chars(s: bumpalo::collections::String) -> Seq<char>;

/// Relies on bumpalo::collections::String::from_str_in, which copies the
/// string's bytes into the arena: the copy holds exactly the given text.
#[verifier::external_body]
fn str_to_arena<'a>(arena: &'a bumpalo::Bump, s: &str) -> (r: bumpalo::collections::String<'a>)
    ensures
        arena_str_chars(r) == s@,
{
    bumpalo::collections::String::from_str_in(s, arena)
}

/// Joins the strings with the separator, allocating the result in the arena.
/// The joined text is computed by the verified [`join_strings`]; only the
/// final copy into the arena is the arena allocator's work.
pub fn arena_join<'a>(arena: &'a bumpalo::Bump, strings: &Vec<&str>, join_str: &str) -> (r:
    bumpalo::collections::String<'a>)
    ensures
        arena_str_chars(r) == join_spec(str_views(strings@), join_str@),
{
    let joined = join_strings(strings, join_str);
    str_to_arena(arena, joined.as_str())
}

/// Inserts every pair into the map; a later pair wins over an earlier one.
pub fn insert_all(map: &mut FieldMap, elems: &Vec<(Lowercase, RecordField)>)
    requires
        old(map).wf(),
    ensures
        final(map).wf(),
        final(map)@ == old(map)@.union_prefer_right(map_of(elems@)),
{
    let ghost m0 = old(map)@;
    let n = elems.len();
    let mut i: usize = 0;
    proof {
        assert(map@ =~= m0.union_prefer_right(map_of(elems@.take(0))));
    }
    while i < n
        invariant
            n == elems@.len(),
            i <= n,
            map.wf(),
            map@ == m0.union_prefer_right(map_of(elems@.take(i as int))),
        decreases n - i,
    {
        let (k, v) = elems[i];
        proof {
            lemma_map_of_take_step(elems@, i as int);
        }
        map.insert(k, v);
        proof {
            assert(map@ =~= m0.union_prefer_right(map_of(elems@.take(i + 1))));
        }
        i = i + 1;
    }
    proof {
        assert(elems@.take(n as int) =~= elems@);
    }
}

} // verus!
