//! Sequences of entries kept sorted by key: binary search and upsert.
use vstd::prelude::*;

use crate::key_order::{
    compare_keys, key_lt, lemma_key_le_lt, lemma_key_lt_irreflexive, lemma_key_lt_le,
    lemma_key_lt_total,
};
use std::cmp::Ordering;

verus! {

/// An entry identified by a string key; the container orders entries by that
/// key alone.
pub trait Keyed {
    /// The entry's key.
    spec fn key_view(&self) -> Seq<char>;

    /// Borrows the entry's key.
    fn entry_key(&self) -> (r: &str)
        ensures
            r@ == self.key_view(),
    ;
}

/// No entry has a key that sorts before the key of an earlier entry.
pub open spec fn sorted_by_key<E: Keyed>(s: Seq<E>) -> bool {
    forall|i: int, j: int|
        0 <= i < j < s.len() ==> !key_lt(#[trigger] s[j].key_view(), #[trigger] s[i].key_view())
}

/// Keys strictly ascend along the sequence, so no key occurs twice.
pub open spec fn strictly_sorted_by_key<E: Keyed>(s: Seq<E>) -> bool {
    forall|i: int, j: int|
        0 <= i < j < s.len() ==> key_lt(#[trigger] s[i].key_view(), #[trigger] s[j].key_view())
}

/// Some entry of `s` has the key `k`.
pub open spec fn has_key<E: Keyed>(s: Seq<E>, k: Seq<char>) -> bool {
    exists|i: int| 0 <= i < s.len() && #[trigger] s[i].key_view() == k
}

/// Inserting an entry with key `k` at position `i` keeps `s` strictly ordered
/// around it: every key before `i` sorts before `k`, every key from `i` on after.
pub open spec fn is_insertion_point<E: Keyed>(s: Seq<E>, k: Seq<char>, i: int) -> bool {
    &&& 0 <= i <= s.len()
    &&& forall|j: int| 0 <= j < i ==> key_lt(#[trigger] s[j].key_view(), k)
    &&& forall|j: int| i <= j < s.len() ==> key_lt(k, #[trigger] s[j].key_view())
}

/// The sequence after inserting `e`, or replacing the entry with its key: the
/// matching entry is overwritten in place, else `e` goes to its insertion point.
pub open spec fn upserted<E: Keyed>(s: Seq<E>, e: E) -> Seq<E> {
    if has_key(s, e.key_view()) {
        s.update(choose|i: int| 0 <= i < s.len() && #[trigger] s[i].key_view() == e.key_view(), e)
    } else {
        s.insert(choose|i: int| is_insertion_point(s, e.key_view(), i), e)
    }
}

/// Upserting each of `es` in turn, starting from the empty sequence.
pub open spec fn upsert_all<E: Keyed>(es: Seq<E>) -> Seq<E>
    decreases es.len(),
{
    if es.len() == 0 {
        Seq::empty()
    } else {
        upserted(upsert_all(es.drop_last()), es.last())
    }
}

/// A strictly sorted sequence is sorted.
pub proof fn lemma_strictly_sorted_is_sorted<E: Keyed>(s: Seq<E>)
    requires
        strictly_sorted_by_key(s),
    ensures
        sorted_by_key(s),
{
    assert forall|i: int, j: int| 0 <= i < j < s.len() implies !key_lt(
        #[trigger] s[j].key_view(),
        #[trigger] s[i].key_view(),
    ) by {
        lemma_key_lt_total(s[i].key_view(), s[j].key_view());
    }
}

/// Binary search of `obj` for `key`. `Ok(i)` names a position whose entry has
/// the key; `Err(i)` is where an entry with the key would be inserted.
///
/// Over a sequence sorted by key the answer is `Ok` exactly when the key is
/// present, and an `Err` position keeps the order. Over a sequence that is not
/// sorted the result is still in bounds, and an `Ok` position still holds the key.
pub fn search_by_key<E: Keyed>(obj: &Vec<E>, key: &str) -> (r: Result<usize, usize>)
    ensures
        match r {
            Ok(i) => i < obj.len() && obj@[i as int].key_view() == key@,
            Err(i) => i <= obj.len() && (sorted_by_key(obj@) ==> is_insertion_point(
                obj@,
                key@,
                i as int,
            )),
        },
        obj.len() == 0 ==> r == Err::<usize, usize>(0),
        sorted_by_key(obj@) ==> (r is Ok <==> has_key(obj@, key@)),
        strictly_sorted_by_key(obj@) ==> forall|i: int|
            0 <= i < obj.len() && #[trigger] obj@[i].key_view() == key@ ==> r == Ok::<
                usize,
                usize,
            >(i as usize),
        sorted_by_key(obj@) && (forall|j: int|
            0 <= j < obj.len() ==> key_lt(key@, #[trigger] obj@[j].key_view())) ==> r == Err::<
            usize,
            usize,
        >(0),
        sorted_by_key(obj@) && (forall|j: int|
            0 <= j < obj.len() ==> key_lt(#[trigger] obj@[j].key_view(), key@)) ==> r == Err::<
            usize,
            usize,
        >(obj.len()),
{
    let r = search_sorted(obj, key);
    proof {
        let s = obj@;
        let k = key@;
        lemma_key_lt_irreflexive(k);
        if strictly_sorted_by_key(s) {
            lemma_strictly_sorted_is_sorted(s);
        }
        if sorted_by_key(s) {
            match r {
                Ok(i) => {
                    assert(has_key(s, k)) by {
                        assert(s[i as int].key_view() == k);
                    }
                },
                Err(i) => {
                    assert(!has_key(s, k)) by {
                        if has_key(s, k) {
                            let w = choose|w: int| 0 <= w < s.len() && #[trigger] s[w].key_view() == k;
                            if w < i {
                                assert(key_lt(s[w].key_view(), k));
                            } else {
                                assert(key_lt(k, s[w].key_view()));
                            }
                        }
                    }
                    if s.len() > 0 {
                        if i > 0 {
                            assert(key_lt(s[0].key_view(), k));
                            lemma_key_lt_total(s[0].key_view(), k);
                        }
                        if i < s.len() {
                            assert(key_lt(k, s[i as int].key_view()));
                            lemma_key_lt_total(s[i as int].key_view(), k);
                        }
                    }
                },
            }
        }
        if strictly_sorted_by_key(s) {
            if let Ok(i) = r {
                assert forall|j: int| 0 <= j < s.len() && #[trigger] s[j].key_view() == k implies r
                    == Ok::<usize, usize>(j as usize) by {
                    if j < i {
                        assert(key_lt(s[j].key_view(), s[i as int].key_view()));
                    } else if i < j {
                        assert(key_lt(s[i as int].key_view(), s[j].key_view()));
                    }
                }
            }
        }
        if sorted_by_key(s) && s.len() > 0 {
            if let Ok(i) = r {
                assert(s[i as int].key_view() == k);
                lemma_key_lt_total(k, k);
            }
        }
    }
    r
}

/// Inserts `kv`, or replaces the entry that has its key, so that the sequence
/// stays ordered: the relative order of all other entries is kept.
pub fn upsert_object_key<E: Keyed>(obj: &mut Vec<E>, kv: E)
    ensures
        (exists|i: int|
            0 <= i < old(obj).len() && #[trigger] old(obj)@[i].key_view() == kv.key_view()
                && final(obj)@ == old(obj)@.update(i, kv)) || (exists|i: int|
            0 <= i <= old(obj).len() && final(obj)@ == old(obj)@.insert(i, kv)),
        sorted_by_key(old(obj)@) ==> sorted_by_key(final(obj)@),
        strictly_sorted_by_key(old(obj)@) ==> final(obj)@ == upserted(old(obj)@, kv),
        strictly_sorted_by_key(old(obj)@) ==> strictly_sorted_by_key(final(obj)@),
{
    let ghost s = obj@;
    let ghost k = kv.key_view();
    match search_by_key(obj, kv.entry_key()) {
        Ok(off) => {
            obj.set(off, kv);
            proof {
                assert(s[off as int].key_view() == k);
                if sorted_by_key(s) {
                    assert(obj@.map_values(|e: E| e.key_view()) =~= s.map_values(|e: E| e.key_view()));
                    assert forall|i: int, j: int| 0 <= i < j < obj@.len() implies !key_lt(
                        #[trigger] obj@[j].key_view(),
                        #[trigger] obj@[i].key_view(),
                    ) by {
                        assert(obj@[i].key_view() == s[i].key_view());
                        assert(obj@[j].key_view() == s[j].key_view());
                    }
                }
                if strictly_sorted_by_key(s) {
                    lemma_upserted_found(s, kv, off as int);
                }
            }
        },
        Err(off) => {
            obj.insert(off, kv);
            proof {
                if sorted_by_key(s) {
                    lemma_insert_at_insertion_point(s, kv, off as int);
                }
                if strictly_sorted_by_key(s) {
                    lemma_strictly_sorted_is_sorted(s);
                    lemma_upserted_not_found(s, kv, off as int);
                }
            }
        },
    }
}

/// Overwriting the one entry with a key leaves a strictly sorted sequence as
/// `upserted` describes it.
proof fn lemma_upserted_found<E: Keyed>(s: Seq<E>, e: E, off: int)
    requires
        strictly_sorted_by_key(s),
        0 <= off < s.len(),
        s[off].key_view() == e.key_view(),
    ensures
        upserted(s, e) == s.update(off, e),
        strictly_sorted_by_key(s.update(off, e)),
{
    let k = e.key_view();
    assert(has_key(s, k));
    let c = choose|i: int| 0 <= i < s.len() && #[trigger] s[i].key_view() == k;
    lemma_key_lt_irreflexive(k);
    if c < off {
        assert(key_lt(s[c].key_view(), s[off].key_view()));
    } else if off < c {
        assert(key_lt(s[off].key_view(), s[c].key_view()));
    }
    let t = s.update(off, e);
    assert forall|i: int, j: int| 0 <= i < j < t.len() implies key_lt(
        #[trigger] t[i].key_view(),
        #[trigger] t[j].key_view(),
    ) by {
        assert(t[i].key_view() == s[i].key_view());
        assert(t[j].key_view() == s[j].key_view());
    }
}

/// Inserting at an insertion point keeps a sorted sequence sorted, and a
/// strictly sorted one strictly sorted.
proof fn lemma_insert_at_insertion_point<E: Keyed>(s: Seq<E>, e: E, off: int)
    requires
        is_insertion_point(s, e.key_view(), off),
    ensures
        sorted_by_key(s) ==> sorted_by_key(s.insert(off, e)),
        strictly_sorted_by_key(s) ==> strictly_sorted_by_key(s.insert(off, e)),
{
    let k = e.key_view();
    let t = s.insert(off, e);
    if sorted_by_key(s) {
        assert forall|i: int, j: int| 0 <= i < j < t.len() implies !key_lt(
            #[trigger] t[j].key_view(),
            #[trigger] t[i].key_view(),
        ) by {
            if i < off && j < off {
                assert(t[i] == s[i] && t[j] == s[j]);
            } else if i > off && j > off {
                assert(t[i] == s[i - 1] && t[j] == s[j - 1]);
            } else if i < off {
                assert(t[i] == s[i]);
                assert(key_lt(s[i].key_view(), k));
                lemma_key_lt_total(s[i].key_view(), k);
                if j > off {
                    assert(t[j] == s[j - 1]);
                    assert(key_lt(k, s[j - 1].key_view()));
                    lemma_key_lt_total(k, s[j - 1].key_view());
                    lemma_key_lt_le(s[i].key_view(), k, s[j - 1].key_view());
                    lemma_key_lt_total(s[i].key_view(), s[j - 1].key_view());
                }
            } else {
                assert(t[j] == s[j - 1]);
                assert(key_lt(k, s[j - 1].key_view()));
                lemma_key_lt_total(s[j - 1].key_view(), k);
            }
        }
    }
    if strictly_sorted_by_key(s) {
        assert forall|i: int, j: int| 0 <= i < j < t.len() implies key_lt(
            #[trigger] t[i].key_view(),
            #[trigger] t[j].key_view(),
        ) by {
            if i < off && j < off {
                assert(t[i] == s[i] && t[j] == s[j]);
            } else if i > off && j > off {
                assert(t[i] == s[i - 1] && t[j] == s[j - 1]);
            } else if i < off {
                assert(t[i] == s[i]);
                assert(key_lt(s[i].key_view(), k));
                if j > off {
                    assert(t[j] == s[j - 1]);
                    assert(key_lt(k, s[j - 1].key_view()));
                    lemma_key_lt_total(k, s[j - 1].key_view());
                    lemma_key_lt_le(s[i].key_view(), k, s[j - 1].key_view());
                }
            } else {
                assert(t[j] == s[j - 1]);
            }
        }
    }
}

/// Inserting at the insertion point of an absent key is what `upserted`
/// describes.
proof fn lemma_upserted_not_found<E: Keyed>(s: Seq<E>, e: E, off: int)
    requires
        strictly_sorted_by_key(s),
        is_insertion_point(s, e.key_view(), off),
    ensures
        upserted(s, e) == s.insert(off, e),
{
    let k = e.key_view();
    lemma_key_lt_irreflexive(k);
    assert(!has_key(s, k)) by {
        if has_key(s, k) {
            let w = choose|w: int| 0 <= w < s.len() && #[trigger] s[w].key_view() == k;
            if w < off {
                assert(key_lt(s[w].key_view(), k));
            } else {
                assert(key_lt(k, s[w].key_view()));
            }
        }
    }
    let c = choose|i: int| is_insertion_point(s, k, i);
    assert(is_insertion_point(s, k, c));
    if c < off {
        assert(key_lt(s[c].key_view(), k));
        assert(key_lt(k, s[c].key_view()));
        lemma_key_lt_total(k, s[c].key_view());
    } else if off < c {
        assert(key_lt(s[off].key_view(), k));
        assert(key_lt(k, s[off].key_view()));
        lemma_key_lt_total(k, s[off].key_view());
    }
}

/// A sorted sequence without the key `k` has an insertion point for it.
pub proof fn lemma_insertion_point_exists<E: Keyed>(s: Seq<E>, k: Seq<char>)
    requires
        sorted_by_key(s),
        !has_key(s, k),
    ensures
        exists|i: int| is_insertion_point(s, k, i),
    decreases s.len(),
{
    if s.len() == 0 {
        assert(is_insertion_point(s, k, 0));
    } else {
        let p = s.drop_last();
        let n = s.len() - 1;
        let last = s[n].key_view();
        assert(sorted_by_key(p)) by {
            assert forall|i: int, j: int| 0 <= i < j < p.len() implies !key_lt(
                #[trigger] p[j].key_view(),
                #[trigger] p[i].key_view(),
            ) by {
                assert(p[i] == s[i] && p[j] == s[j]);
            }
        }
        assert(!has_key(p, k)) by {
            if has_key(p, k) {
                let w = choose|w: int| 0 <= w < p.len() && #[trigger] p[w].key_view() == k;
                assert(s[w].key_view() == k);
            }
        }
        lemma_insertion_point_exists(p, k);
        let q = choose|i: int| is_insertion_point(p, k, i);
        assert(last != k);
        lemma_key_lt_total(last, k);
        if key_lt(last, k) {
            assert forall|j: int| 0 <= j < s.len() implies key_lt(#[trigger] s[j].key_view(), k) by {
                if j < n {
                    lemma_key_le_lt(s[j].key_view(), last, k);
                }
            }
            assert(is_insertion_point(s, k, s.len() as int));
        } else {
            assert forall|j: int| 0 <= j < q implies key_lt(#[trigger] s[j].key_view(), k) by {
                assert(s[j] == p[j]);
            }
            assert forall|j: int| q <= j < s.len() implies key_lt(k, #[trigger] s[j].key_view()) by {
                if j < n {
                    assert(s[j] == p[j]);
                }
            }
            assert(is_insertion_point(s, k, q));
        }
    }
}

/// Upserting into a strictly sorted sequence leaves it strictly sorted.
pub proof fn lemma_upserted_strictly_sorted<E: Keyed>(s: Seq<E>, e: E)
    requires
        strictly_sorted_by_key(s),
    ensures
        strictly_sorted_by_key(upserted(s, e)),
{
    let k = e.key_view();
    if has_key(s, k) {
        let c = choose|i: int| 0 <= i < s.len() && #[trigger] s[i].key_view() == k;
        lemma_upserted_found(s, e, c);
    } else {
        lemma_strictly_sorted_is_sorted(s);
        lemma_insertion_point_exists(s, k);
        let c = choose|i: int| is_insertion_point(s, k, i);
        lemma_insert_at_insertion_point(s, e, c);
    }
}

/// Whatever entries are upserted one after another into an empty sequence,
/// the keys of the result strictly ascend: it is sorted and no key occurs twice.
pub proof fn lemma_upsert_all_strictly_sorted<E: Keyed>(es: Seq<E>)
    ensures
        strictly_sorted_by_key(upsert_all(es)),
    decreases es.len(),
{
    if es.len() > 0 {
        lemma_upsert_all_strictly_sorted(es.drop_last());
        lemma_upserted_strictly_sorted(upsert_all(es.drop_last()), es.last());
    }
}

/// Upserting two entries with the same key one after the other, into a
/// strictly sorted sequence, leaves exactly one entry with that key, the
/// second one (the last write wins), and the length that the first upsert left.
pub proof fn lemma_upsert_same_key_twice<E: Keyed>(s: Seq<E>, e1: E, e2: E)
    requires
        strictly_sorted_by_key(s),
        e1.key_view() == e2.key_view(),
    ensures
        upserted(upserted(s, e1), e2).len() == upserted(s, e1).len(),
        exists|i: int|
            {
                &&& 0 <= i < upserted(upserted(s, e1), e2).len()
                &&& upserted(upserted(s, e1), e2)[i] == e2
                &&& forall|j: int|
                    0 <= j < upserted(upserted(s, e1), e2).len()
                        && #[trigger] upserted(upserted(s, e1), e2)[j].key_view() == e2.key_view()
                        ==> j == i
            },
{
    let k = e1.key_view();
    let t = upserted(s, e1);
    lemma_upserted_strictly_sorted(s, e1);
    let i = if has_key(s, k) {
        let c = choose|c: int| 0 <= c < s.len() && #[trigger] s[c].key_view() == k;
        lemma_upserted_found(s, e1, c);
        c
    } else {
        lemma_strictly_sorted_is_sorted(s);
        lemma_insertion_point_exists(s, k);
        let c = choose|c: int| is_insertion_point(s, k, c);
        lemma_upserted_not_found(s, e1, c);
        c
    };
    assert(0 <= i < t.len() && t[i] == e1);
    lemma_upserted_found(t, e2, i);
    let u = upserted(t, e2);
    lemma_key_lt_irreflexive(k);
    assert forall|j: int| 0 <= j < u.len() && #[trigger] u[j].key_view() == e2.key_view() implies j
        == i by {
        if j < i {
            assert(key_lt(u[j].key_view(), u[i].key_view()));
        } else if i < j {
            assert(key_lt(u[i].key_view(), u[j].key_view()));
        }
    }
    assert(u[i] == e2);
}

/// The search loop: a window `[base, base + size)` that shrinks by half each
/// step, advancing when the middle key is not greater than the probe.
fn search_sorted<E: Keyed>(obj: &Vec<E>, key: &str) -> (r: Result<usize, usize>)
    ensures
        match r {
            Ok(i) => i < obj.len() && obj@[i as int].key_view() == key@,
            Err(i) => i <= obj.len() && (sorted_by_key(obj@) ==> is_insertion_point(
                obj@,
                key@,
                i as int,
            )),
        },
        obj.len() == 0 ==> r == Err::<usize, usize>(0),
{
    let ghost s = obj@;
    let ghost k = key@;
    let mut size: usize = obj.len();
    if size == 0 {
        return Err(0);
    }
    let mut base: usize = 0;
    while size > 1
        invariant
            s == obj@,
            k == key@,
            1 <= size,
            base + size <= obj.len(),
            sorted_by_key(s) ==> (base == 0 || !key_lt(k, s[base as int].key_view())),
            sorted_by_key(s) ==> forall|j: int|
                base + size <= j < s.len() ==> key_lt(k, #[trigger] s[j].key_view()),
        decreases size,
    {
        let half = size / 2;
        let mid = base + half;
        let cmp = compare_keys(obj[mid].entry_key(), key);
        proof {
            let km = s[mid as int].key_view();
            lemma_key_lt_total(km, k);
            lemma_key_lt_irreflexive(k);
            if sorted_by_key(s) && cmp == Ordering::Greater {
                assert forall|j: int| base + size - half <= j < s.len() implies key_lt(
                    k,
                    #[trigger] s[j].key_view(),
                ) by {
                    if j > mid {
                        lemma_key_lt_le(k, km, s[j].key_view());
                    }
                }
            }
        }
        match cmp {
            Ordering::Greater => {},
            _ => {
                base = mid;
            },
        }
        size -= half;
    }
    let cmp = compare_keys(obj[base].entry_key(), key);
    proof {
        let kb = s[base as int].key_view();
        lemma_key_lt_total(kb, k);
        lemma_key_lt_irreflexive(k);
        if sorted_by_key(s) && cmp == Ordering::Less {
            assert forall|j: int| 0 <= j < base + 1 implies key_lt(
                #[trigger] s[j].key_view(),
                k,
            ) by {
                if j < base {
                    lemma_key_le_lt(s[j].key_view(), kb, k);
                }
            }
        }
    }
    match cmp {
        Ordering::Equal => Ok(base),
        Ordering::Less => Err(base + 1),
        Ordering::Greater => Err(base),
    }
}

} // verus!
