//! Keyed collections held as lists of `(name, value)` pairs with distinct names,
//! and the typed result of a parse.
use vstd::prelude::*;
use crate::classify::{ArgValue, ValueModel};

verus! {

/// No two entries share a name.
pub open spec fn keys_unique<V>(e: Seq<(String, V)>) -> bool {
    forall|i: int, j: int|
        0 <= i < e.len() && 0 <= j < e.len() && i != j ==> #[trigger] e[i].0@ != #[trigger] e[j].0@
}

/// Some entry has the name `k`.
pub open spec fn has_key<V>(e: Seq<(String, V)>, k: Seq<char>) -> bool {
    exists|i: int| 0 <= i < e.len() && #[trigger] e[i].0@ == k
}

/// The map from each entry's name to its value, seen through `f`.
pub open spec fn assoc_map<V, W>(e: Seq<(String, V)>, f: spec_fn(V) -> W) -> Map<Seq<char>, W> {
    Map::new(
        |k: Seq<char>| has_key(e, k),
        |k: Seq<char>| f(e[choose|i: int| 0 <= i < e.len() && #[trigger] e[i].0@ == k].1),
    )
}

pub proof fn lemma_assoc_at<V, W>(e: Seq<(String, V)>, f: spec_fn(V) -> W, i: int)
    requires
        keys_unique(e),
        0 <= i < e.len(),
    ensures
        assoc_map(e, f).contains_key(e[i].0@),
        assoc_map(e, f)[e[i].0@] == f(e[i].1),
{
    let k = e[i].0@;
    assert(has_key(e, k));
    let j = choose|j: int| 0 <= j < e.len() && #[trigger] e[j].0@ == k;
    assert(j == i);
}

pub proof fn lemma_assoc_push<V, W>(e: Seq<(String, V)>, f: spec_fn(V) -> W, k: String, v: V)
    requires
        keys_unique(e),
        !has_key(e, k@),
    ensures
        keys_unique(e.push((k, v))),
        assoc_map(e.push((k, v)), f) == assoc_map(e, f).insert(k@, f(v)),
{
    let e2 = e.push((k, v));
    assert(keys_unique(e2)) by {
        assert forall|i: int, j: int|
            0 <= i < e2.len() && 0 <= j < e2.len() && i != j implies #[trigger] e2[i].0@
            != #[trigger] e2[j].0@ by {
            if i < e.len() && j < e.len() {
                assert(e2[i] == e[i] && e2[j] == e[j]);
            } else if i < e.len() {
                assert(e2[i] == e[i]);
            } else {
                assert(e2[j] == e[j]);
            }
        }
    }
    let m1 = assoc_map(e2, f);
    let m2 = assoc_map(e, f).insert(k@, f(v));
    assert forall|q: Seq<char>| #[trigger] m1.contains_key(q) == m2.contains_key(q) by {
        if has_key(e, q) {
            let i = choose|i: int| 0 <= i < e.len() && #[trigger] e[i].0@ == q;
            assert(e2[i] == e[i]);
        }
        if has_key(e2, q) {
            let i = choose|i: int| 0 <= i < e2.len() && #[trigger] e2[i].0@ == q;
            if i < e.len() {
                assert(e2[i] == e[i]);
            }
        }
        if q == k@ {
            assert(e2[e.len() as int].0@ == q);
        }
    }
    assert forall|q: Seq<char>| #[trigger] m1.contains_key(q) implies m1[q] == m2[q] by {
        let i = choose|i: int| 0 <= i < e2.len() && #[trigger] e2[i].0@ == q;
        lemma_assoc_at(e2, f, i);
        if i < e.len() {
            assert(e2[i] == e[i]);
            lemma_assoc_at(e, f, i);
        }
    }
    assert(m1 =~= m2);
}

pub proof fn lemma_assoc_update<V, W>(
    e: Seq<(String, V)>,
    f: spec_fn(V) -> W,
    i: int,
    k: String,
    v: V,
)
    requires
        keys_unique(e),
        0 <= i < e.len(),
        e[i].0@ == k@,
    ensures
        keys_unique(e.update(i, (k, v))),
        assoc_map(e.update(i, (k, v)), f) == assoc_map(e, f).insert(k@, f(v)),
{
    let e2 = e.update(i, (k, v));
    assert(keys_unique(e2)) by {
        assert forall|a: int, b: int|
            0 <= a < e2.len() && 0 <= b < e2.len() && a != b implies #[trigger] e2[a].0@
            != #[trigger] e2[b].0@ by {
            assert(e2[a].0@ == e[a].0@);
            assert(e2[b].0@ == e[b].0@);
        }
    }
    let m1 = assoc_map(e2, f);
    let m2 = assoc_map(e, f).insert(k@, f(v));
    assert forall|q: Seq<char>| #[trigger] m1.contains_key(q) == m2.contains_key(q) by {
        if has_key(e, q) {
            let j = choose|j: int| 0 <= j < e.len() && #[trigger] e[j].0@ == q;
            assert(e2[j].0@ == q);
        }
        if has_key(e2, q) {
            let j = choose|j: int| 0 <= j < e2.len() && #[trigger] e2[j].0@ == q;
            assert(e[j].0@ == q);
        }
        assert(e[i].0@ == k@);
    }
    assert forall|q: Seq<char>| #[trigger] m1.contains_key(q) implies m1[q] == m2[q] by {
        let j = choose|j: int| 0 <= j < e2.len() && #[trigger] e2[j].0@ == q;
        lemma_assoc_at(e2, f, j);
        if j != i {
            assert(e2[j] == e[j]);
            lemma_assoc_at(e, f, j);
        }
    }
    assert(m1 =~= m2);
}

/// The index of the entry named `k`, if there is one.
pub fn find_key<V>(e: &Vec<(String, V)>, k: &String) -> (r: Option<usize>)
    ensures
        r matches Some(i) ==> i < e@.len() && e@[i as int].0@ == k@,
        r is None ==> !has_key(e@, k@),
{
    let mut i: usize = 0;
    while i < e.len()
        invariant
            i <= e@.len(),
            forall|j: int| 0 <= j < i ==> #[trigger] e@[j].0@ != k@,
        decreases e@.len() - i,
    {
        if e[i].0 == *k {
            return Some(i);
        }
        i = i + 1;
    }
    None
}

/// The eight buckets of a typed collection, one for each type a converted value
/// can have, in the order a host fills its own record.
#[derive(Clone, Copy, Debug, PartialEq, Eq, Structural)]
pub enum Bucket {
    Booleans,
    Strings,
    Integers,
    Floats,
    ListStrings,
    ListIntegers,
    ListFloats,
    ListBooleans,
}

/// The bucket a value belongs to.
pub open spec fn bucket_of(v: ValueModel) -> Bucket {
    match v {
        ValueModel::Boolean(_) => Bucket::Booleans,
        ValueModel::Str(_) => Bucket::Strings,
        ValueModel::Integer(_) => Bucket::Integers,
        ValueModel::Float(_) => Bucket::Floats,
        ValueModel::ListString(_) => Bucket::ListStrings,
        ValueModel::ListInteger(_) => Bucket::ListIntegers,
        ValueModel::ListFloat(_) => Bucket::ListFloats,
        ValueModel::ListBoolean(_) => Bucket::ListBooleans,
    }
}

/// The bucket a value belongs to.
pub fn value_bucket(v: &ArgValue) -> (r: Bucket)
    ensures
        r == bucket_of(v@),
{
    match v {
        ArgValue::Boolean(_) => Bucket::Booleans,
        ArgValue::Str(_) => Bucket::Strings,
        ArgValue::Integer(_) => Bucket::Integers,
        ArgValue::Float(_) => Bucket::Floats,
        ArgValue::ListString(_) => Bucket::ListStrings,
        ArgValue::ListInteger(_) => Bucket::ListIntegers,
        ArgValue::ListFloat(_) => Bucket::ListFloats,
        ArgValue::ListBoolean(_) => Bucket::ListBooleans,
    }
}

/// How a converted value is seen in the typed collection.
pub open spec fn value_view() -> spec_fn(ArgValue) -> ValueModel {
    |v: ArgValue| v@
}

/// The result of a parse: each flag name with its converted value. The type of
/// the value (its variant) is the bucket the flag belongs to, so a name stands in
/// exactly one bucket.
pub struct TypedCollection {
    entries: Vec<(String, ArgValue)>,
}

impl View for TypedCollection {
    type V = Map<Seq<char>, ValueModel>;

    closed spec fn view(&self) -> Map<Seq<char>, ValueModel> {
        assoc_map(self.entries@, value_view())
    }
}

impl TypedCollection {
    /// The entries have distinct names.
    pub closed spec fn wf(&self) -> bool {
        keys_unique(self.entries@)
    }

    /// An empty collection.
    pub fn new() -> (r: TypedCollection)
        ensures
            r.wf(),
            r@ == Map::<Seq<char>, ValueModel>::empty(),
    {
        let r = TypedCollection { entries: Vec::new() };
        assert(r@ =~= Map::<Seq<char>, ValueModel>::empty());
        r
    }

    /// Adds a flag that the collection does not hold yet.
    pub fn insert_new(&mut self, key: String, value: ArgValue)
        requires
            old(self).wf(),
            !old(self)@.contains_key(key@),
        ensures
            final(self).wf(),
            final(self)@ == old(self)@.insert(key@, value@),
    {
        proof {
            if has_key(self.entries@, key@) {
                let i = choose|i: int|
                    0 <= i < self.entries@.len() && #[trigger] self.entries@[i].0@ == key@;
                lemma_assoc_at(self.entries@, value_view(), i);
            }
            lemma_assoc_push(self.entries@, value_view(), key, value);
        }
        self.entries.push((key, value));
    }

    /// The value of the flag `key`, if the collection holds it.
    pub fn get(&self, key: &str) -> (r: Option<&ArgValue>)
        requires
            self.wf(),
        ensures
            r matches Some(v) ==> self@.contains_key(key@) && self@[key@] == v@,
            r is None ==> !self@.contains_key(key@),
    {
        let k = key.to_owned();
        match find_key(&self.entries, &k) {
            Some(i) => {
                proof {
                    lemma_assoc_at(self.entries@, value_view(), i as int);
                }
                Some(&self.entries[i].1)
            },
            None => None,
        }
    }

    /// Whether the collection holds no flag.
    pub fn is_empty(&self) -> (r: bool)
        ensures
            r == (self@ == Map::<Seq<char>, ValueModel>::empty()),
    {
        proof {
            if self.entries@.len() > 0 {
                assert(self@.contains_key(self.entries@[0].0@));
            } else {
                assert(self@ =~= Map::<Seq<char>, ValueModel>::empty());
            }
        }
        self.entries.len() == 0
    }

    /// The names of the flags in bucket `b`, each once.
    pub fn bucket_keys(&self, b: Bucket) -> (r: Vec<String>)
        requires
            self.wf(),
        ensures
            forall|i: int, j: int|
                0 <= i < r@.len() && 0 <= j < r@.len() && i != j ==> #[trigger] r@[i]@
                    != #[trigger] r@[j]@,
            forall|m: int|
                0 <= m < r@.len() ==> self@.contains_key(#[trigger] r@[m]@) && bucket_of(
                    self@[r@[m]@],
                ) == b,
            forall|k: Seq<char>|
                #[trigger] self@.contains_key(k) && bucket_of(self@[k]) == b ==> exists|m: int|
                    0 <= m < r@.len() && #[trigger] r@[m]@ == k,
    {
        let ghost e = self.entries@;
        let mut r: Vec<String> = Vec::new();
        let ghost mut idx: Seq<int> = seq![];
        let mut i: usize = 0;
        while i < self.entries.len()
            invariant
                e == self.entries@,
                keys_unique(e),
                i <= e.len(),
                idx.len() == r@.len(),
                forall|m: int| 0 <= m < idx.len() ==> 0 <= #[trigger] idx[m] < i,
                forall|m: int, n: int| 0 <= m < n < idx.len() ==> idx[m] < idx[n],
                forall|m: int|
                    0 <= m < idx.len() ==> r@[m]@ == e[#[trigger] idx[m]].0@ && bucket_of(
                        e[idx[m]].1@,
                    ) == b,
                forall|j: int|
                    0 <= j < i && bucket_of(#[trigger] e[j].1@) == b ==> exists|m: int|
                        0 <= m < idx.len() && #[trigger] idx[m] == j,
            decreases e.len() - i,
        {
            let ghost old_idx = idx;
            if value_bucket(&self.entries[i].1) == b {
                let k = self.entries[i].0.clone();
                proof {
                    idx = idx.push(i as int);
                }
                r.push(k);
                assert(idx[idx.len() - 1] == i);
            }
            assert forall|j: int|
                0 <= j < i + 1 && bucket_of(#[trigger] e[j].1@) == b implies exists|m: int|
                0 <= m < idx.len() && #[trigger] idx[m] == j by {
                if j < i {
                    let m = choose|m: int| 0 <= m < old_idx.len() && #[trigger] old_idx[m] == j;
                    assert(idx[m] == old_idx[m]);
                } else {
                    assert(idx[idx.len() - 1] == j);
                }
            }
            i = i + 1;
        }
        proof {
            assert forall|a: int, c: int|
                0 <= a < r@.len() && 0 <= c < r@.len() && a != c implies #[trigger] r@[a]@
                != #[trigger] r@[c]@ by {
                if a < c {
                    assert(idx[a] < idx[c]);
                } else {
                    assert(idx[c] < idx[a]);
                }
            }
            assert forall|m: int| 0 <= m < r@.len() implies self@.contains_key(
                #[trigger] r@[m]@,
            ) && bucket_of(self@[r@[m]@]) == b by {
                lemma_assoc_at(e, value_view(), idx[m]);
            }
            assert forall|k: Seq<char>| #[trigger]
                self@.contains_key(k) && bucket_of(self@[k]) == b implies exists|m: int|
                0 <= m < r@.len() && #[trigger] r@[m]@ == k by {
                let j = choose|j: int| 0 <= j < e.len() && #[trigger] e[j].0@ == k;
                lemma_assoc_at(e, value_view(), j);
                let m = choose|m: int| 0 <= m < idx.len() && #[trigger] idx[m] == j;
                assert(r@[m]@ == k);
            }
        }
        r
    }

    /// The flags and their values, each name once.
    pub fn entries(&self) -> (r: &Vec<(String, ArgValue)>)
        requires
            self.wf(),
        ensures
            keys_unique(r@),
            assoc_map(r@, value_view()) == self@,
    {
        &self.entries
    }
}

} // verus!
