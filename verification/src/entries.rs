use vstd::prelude::*;
use crate::names::{
    lemma_name_lt_asymmetric, lemma_name_lt_irreflexive, lemma_name_lt_total,
    lemma_name_lt_transitive, name_lt, order_of, NameOrder,
};

verus! {

/// Some entry of `es` has the key `key`.
pub open spec fn has_key<V>(es: Seq<(Seq<char>, V)>, key: Seq<char>) -> bool {
    exists|i: int| 0 <= i < es.len() && (#[trigger] es[i]).0 == key
}

/// The place of the entry with the key `key`, where there is one.
pub open spec fn index_of<V>(es: Seq<(Seq<char>, V)>, key: Seq<char>) -> int {
    choose|i: int| 0 <= i < es.len() && (#[trigger] es[i]).0 == key
}

/// What is stored under `key`, where there is an entry for it.
pub open spec fn value_of<V>(es: Seq<(Seq<char>, V)>, key: Seq<char>) -> V {
    es[index_of(es, key)].1
}

/// What is stored under `key`, if anything.
pub open spec fn lookup<V>(es: Seq<(Seq<char>, V)>, key: Seq<char>) -> Option<V> {
    if has_key(es, key) {
        Some(value_of(es, key))
    } else {
        None
    }
}

/// The keys of `es` ascend in the order of names, so no key occurs twice.
pub open spec fn sorted<V>(es: Seq<(Seq<char>, V)>) -> bool {
    forall|i: int, j: int| 0 <= i < j < es.len()
        ==> name_lt((#[trigger] es[i]).0, (#[trigger] es[j]).0)
}

/// Every entry before place `p` has a key before `key`, and every entry from `p`
/// on has a key after it.
pub open spec fn parts_at<V>(es: Seq<(Seq<char>, V)>, key: Seq<char>, p: int) -> bool {
    &&& 0 <= p <= es.len()
    &&& forall|i: int| 0 <= i < p ==> name_lt((#[trigger] es[i]).0, key)
    &&& forall|i: int| p <= i < es.len() ==> name_lt(key, (#[trigger] es[i]).0)
}

/// The place at which a new key enters a sorted sequence.
pub open spec fn insertion_point<V>(es: Seq<(Seq<char>, V)>, key: Seq<char>) -> int {
    choose|p: int| parts_at(es, key, p)
}

/// `es` with `value` stored under `key`: in place of the entry that had the key,
/// or as a new entry where the order of names puts it.
pub open spec fn with_entry<V>(es: Seq<(Seq<char>, V)>, key: Seq<char>, value: V) -> Seq<
    (Seq<char>, V),
> {
    if has_key(es, key) {
        es.update(index_of(es, key), (key, value))
    } else {
        es.insert(insertion_point(es, key), (key, value))
    }
}

/// In a sorted sequence a key stands at one place only.
pub proof fn lemma_index_unique<V>(es: Seq<(Seq<char>, V)>, i: int)
    requires
        sorted(es),
        0 <= i < es.len(),
    ensures
        has_key(es, es[i].0),
        index_of(es, es[i].0) == i,
        value_of(es, es[i].0) == es[i].1,
{
    let j = index_of(es, es[i].0);
    lemma_name_lt_irreflexive(es[i].0);
    if j < i {
        assert(name_lt(es[j].0, es[i].0));
    } else if i < j {
        assert(name_lt(es[i].0, es[j].0));
    }
}

/// A sorted sequence has one place for a key that it does not hold.
pub proof fn lemma_insertion_point_unique<V>(es: Seq<(Seq<char>, V)>, key: Seq<char>, p: int)
    requires
        parts_at(es, key, p),
    ensures
        !has_key(es, key),
        insertion_point(es, key) == p,
{
    lemma_name_lt_irreflexive(key);
    let q = insertion_point(es, key);
    if q < p {
        lemma_name_lt_asymmetric(es[q].0, key);
    } else if p < q {
        lemma_name_lt_asymmetric(es[p].0, key);
    }
}

/// A sorted sequence has a place for every key that it does not hold.
pub proof fn lemma_insertion_point_exists<V>(es: Seq<(Seq<char>, V)>, key: Seq<char>, n: int)
    requires
        sorted(es),
        !has_key(es, key),
        0 <= n <= es.len(),
        forall|i: int| 0 <= i < n ==> name_lt((#[trigger] es[i]).0, key),
    ensures
        parts_at(es, key, insertion_point(es, key)),
    decreases es.len() - n,
{
    if n == es.len() {
        assert(parts_at(es, key, n));
    } else {
        lemma_name_lt_total(es[n].0, key);
        if name_lt(key, es[n].0) {
            assert forall|i: int| n <= i < es.len() implies name_lt(key, (#[trigger] es[i]).0) by {
                if n < i {
                    lemma_name_lt_transitive(key, es[n].0, es[i].0);
                }
            }
            assert(parts_at(es, key, n));
        } else {
            lemma_insertion_point_exists(es, key, n + 1);
        }
    }
}

/// Storing a value keeps the sequence sorted, makes it one longer if the key is
/// new, and changes what is found under that key only.
pub proof fn lemma_with_entry<V>(es: Seq<(Seq<char>, V)>, key: Seq<char>, value: V)
    requires
        sorted(es),
    ensures
        sorted(with_entry(es, key, value)),
        with_entry(es, key, value).len() == es.len() + if has_key(es, key) { 0int } else { 1int },
        lookup(with_entry(es, key, value), key) == Some(value),
        forall|other: Seq<char>| other != key
            ==> lookup(with_entry(es, key, value), other) == lookup(es, other),
{
    let r = with_entry(es, key, value);
    if has_key(es, key) {
        let i = index_of(es, key);
        assert(sorted(r));
        lemma_index_unique(r, i);
        assert forall|other: Seq<char>| other != key
            implies lookup(r, other) == lookup(es, other) by {
            if has_key(es, other) {
                let j = index_of(es, other);
                assert(r[j] == es[j]);
                lemma_index_unique(r, j);
                lemma_index_unique(es, j);
            } else if has_key(r, other) {
                let j = index_of(r, other);
                assert(es[j] == r[j]);
            }
        }
    } else {
        lemma_insertion_point_exists(es, key, 0);
        let p = insertion_point(es, key);
        assert forall|i: int, j: int| 0 <= i < j < r.len()
            implies name_lt((#[trigger] r[i]).0, (#[trigger] r[j]).0) by {
            if j < p {
                assert(r[i] == es[i] && r[j] == es[j]);
            } else if j == p {
                assert(r[i] == es[i]);
            } else if i < p {
                assert(r[i] == es[i] && r[j] == es[j - 1]);
                lemma_name_lt_transitive(es[i].0, key, es[j - 1].0);
            } else if i == p {
                assert(r[j] == es[j - 1]);
            } else {
                assert(r[i] == es[i - 1] && r[j] == es[j - 1]);
            }
        }
        lemma_index_unique(r, p);
        assert forall|other: Seq<char>| other != key
            implies lookup(r, other) == lookup(es, other) by {
            if has_key(es, other) {
                let j = index_of(es, other);
                let j2 = if j < p { j } else { j + 1 };
                assert(r[j2] == es[j]);
                lemma_index_unique(r, j2);
                lemma_index_unique(es, j);
            } else if has_key(r, other) {
                let j = index_of(r, other);
                if j < p {
                    assert(es[j] == r[j]);
                } else {
                    assert(es[j - 1] == r[j]);
                }
            }
        }
    }
}

/// `es` with every value replaced by what `f` makes of it.
pub open spec fn mapped<V, W>(es: Seq<(Seq<char>, V)>, f: spec_fn(V) -> W) -> Seq<(Seq<char>, W)> {
    Seq::new(es.len(), |i: int| (es[i].0, f(es[i].1)))
}

/// Two sequences with the same keys at the same places hold the same keys, at
/// the same places, and take a new key at the same place.
pub proof fn lemma_same_keys<V, W>(a: Seq<(Seq<char>, V)>, b: Seq<(Seq<char>, W)>, key: Seq<char>)
    requires
        sorted(a),
        a.len() == b.len(),
        forall|i: int| 0 <= i < a.len() ==> (#[trigger] a[i]).0 == b[i].0,
    ensures
        sorted(b),
        has_key(b, key) == has_key(a, key),
        has_key(a, key) ==> index_of(b, key) == index_of(a, key),
        !has_key(a, key) ==> insertion_point(b, key) == insertion_point(a, key),
{
    assert forall|i: int, j: int| 0 <= i < j < b.len()
        implies name_lt((#[trigger] b[i]).0, (#[trigger] b[j]).0) by {
        assert(name_lt(a[i].0, a[j].0));
    }
    if has_key(a, key) {
        let i = index_of(a, key);
        assert(b[i].0 == key);
        lemma_index_unique(b, i);
    } else {
        if has_key(b, key) {
            let i = index_of(b, key);
            assert(a[i].0 == key);
        }
        lemma_insertion_point_exists(a, key, 0);
        let p = insertion_point(a, key);
        assert forall|i: int| 0 <= i < p implies name_lt((#[trigger] b[i]).0, key) by {
            assert(name_lt(a[i].0, key));
        }
        assert forall|i: int| p <= i < b.len() implies name_lt(key, (#[trigger] b[i]).0) by {
            assert(name_lt(key, a[i].0));
        }
        lemma_insertion_point_unique(b, key, p);
    }
}

/// Storing a value and then replacing the values gives what replacing the
/// values and then storing the replaced value gives.
pub proof fn lemma_with_entry_mapped<V, W>(
    es: Seq<(Seq<char>, V)>,
    f: spec_fn(V) -> W,
    key: Seq<char>,
    value: V,
)
    requires
        sorted(es),
    ensures
        mapped(with_entry(es, key, value), f) == with_entry(mapped(es, f), key, f(value)),
        lookup(mapped(es, f), key) == match lookup(es, key) {
            Some(v) => Some(f(v)),
            None => None,
        },
{
    let ms = mapped(es, f);
    lemma_same_keys(es, ms, key);
    if has_key(es, key) {
        let i = index_of(es, key);
        assert(mapped(es.update(i, (key, value)), f) =~= ms.update(i, (key, f(value))));
    } else {
        lemma_insertion_point_exists(es, key, 0);
        let p = insertion_point(es, key);
        assert(mapped(es.insert(p, (key, value)), f) =~= ms.insert(p, (key, f(value))));
    }
}

/// The entries that a vector of names and a vector of values stand for, pair by
/// pair.
pub open spec fn paired<V>(names: Seq<String>, values: Seq<V>) -> Seq<(Seq<char>, V)> {
    Seq::new(values.len(), |i: int| (names[i]@, values[i]))
}

/// Every name of `names` comes before the next one.
pub open spec fn ascending(names: Seq<String>) -> bool {
    forall|i: int, j: int| 0 <= i < j < names.len()
        ==> name_lt((#[trigger] names[i])@, (#[trigger] names[j])@)
}

/// Entries are sorted where their names ascend.
pub proof fn lemma_paired_sorted<V>(names: Seq<String>, values: Seq<V>)
    requires
        names.len() == values.len(),
    ensures
        sorted(paired(names, values)) == ascending(names),
{
    let es = paired(names, values);
    if ascending(names) {
        assert forall|i: int, j: int| 0 <= i < j < es.len()
            implies name_lt((#[trigger] es[i]).0, (#[trigger] es[j]).0) by {
            assert(name_lt(names[i]@, names[j]@));
        }
    }
    if sorted(es) {
        assert forall|i: int, j: int| 0 <= i < j < names.len()
            implies name_lt((#[trigger] names[i])@, (#[trigger] names[j])@) by {
            assert(name_lt(es[i].0, es[j].0));
        }
    }
}

/// Where `key` stands among sorted names, or where it would enter.
pub(crate) fn search<V>(names: &Vec<String>, values: &Vec<V>, key: &str) -> (r: Result<
    usize,
    usize,
>)
    requires
        names@.len() == values@.len(),
        ascending(names@),
    ensures
        sorted(paired(names@, values@)),
        match r {
            Ok(i) => i < names@.len() && names@[i as int]@ == key@
                && has_key(paired(names@, values@), key@)
                && index_of(paired(names@, values@), key@) == i,
            Err(p) => parts_at(paired(names@, values@), key@, p as int)
                && !has_key(paired(names@, values@), key@)
                && insertion_point(paired(names@, values@), key@) == p,
        },
{
    let ghost es = paired(names@, values@);
    proof {
        lemma_paired_sorted(names@, values@);
    }
    let mut lo: usize = 0;
    let mut hi: usize = names.len();
    while lo < hi
        invariant
            0 <= lo <= hi <= names@.len(),
            names@.len() == values@.len(),
            es == paired(names@, values@),
            sorted(es),
            forall|i: int| 0 <= i < lo ==> name_lt((#[trigger] es[i]).0, key@),
            forall|i: int| hi <= i < es.len() ==> name_lt(key@, (#[trigger] es[i]).0),
        decreases hi - lo,
    {
        let mid = lo + (hi - lo) / 2;
        match order_of(names[mid].as_str(), key) {
            NameOrder::Same => {
                proof {
                    assert(es[mid as int].0 == key@);
                    lemma_index_unique(es, mid as int);
                }
                return Ok(mid);
            },
            NameOrder::Before => {
                assert forall|i: int| 0 <= i < mid + 1
                    implies name_lt((#[trigger] es[i]).0, key@) by {
                    if i < mid {
                        lemma_name_lt_transitive(es[i].0, es[mid as int].0, key@);
                    }
                }
                lo = mid + 1;
            },
            NameOrder::After => {
                assert forall|i: int| mid <= i < es.len()
                    implies name_lt(key@, (#[trigger] es[i]).0) by {
                    if mid < i {
                        lemma_name_lt_transitive(key@, es[mid as int].0, es[i].0);
                    }
                }
                hi = mid;
            },
        }
    }
    proof {
        assert(parts_at(es, key@, lo as int));
        lemma_insertion_point_unique(es, key@, lo as int);
    }
    Err(lo)
}

/// Stores `value` under `key` among sorted names, and hands back what the key
/// held before.
pub(crate) fn store<V>(
    names: &mut Vec<String>,
    values: &mut Vec<V>,
    key: String,
    value: V,
) -> (before: Option<V>)
    requires
        old(names)@.len() == old(values)@.len(),
        ascending(old(names)@),
    ensures
        final(names)@.len() == final(values)@.len(),
        ascending(final(names)@),
        sorted(paired(old(names)@, old(values)@)),
        paired(final(names)@, final(values)@) == with_entry(
            paired(old(names)@, old(values)@),
            key@,
            value,
        ),
        before == lookup(paired(old(names)@, old(values)@), key@),
{
    let ghost es = paired(names@, values@);
    proof {
        lemma_paired_sorted(names@, values@);
        lemma_with_entry(es, key@, value);
    }
    let found = search(names, values, key.as_str());
    let before = match found {
        Ok(i) => {
            values.push(value);
            let before = values.swap_remove(i);
            assert(paired(names@, values@) =~= es.update(i as int, (key@, value)));
            Some(before)
        },
        Err(p) => {
            names.insert(p, key);
            values.insert(p, value);
            assert(paired(names@, values@) =~= es.insert(p as int, (key@, value)));
            None
        },
    };
    proof {
        lemma_paired_sorted(names@, values@);
    }
    before
}

} // verus!
