//! The key space: string values with an optional expiry deadline, and lists.
//!
//! Time is a count of milliseconds on a monotonic clock, read by the caller
//! and handed in as `now`. A string whose deadline is at or before `now` is
//! expired: reading it removes it.
use crate::byte_text::bytes_eq;
use std::collections::VecDeque;
use vstd::prelude::*;

verus! {

// ---------------------------------------------------------------------------
// Association lists keyed by byte strings
// ---------------------------------------------------------------------------
pub open spec fn key_at<V>(s: Seq<(Vec<u8>, V)>, i: int) -> Seq<u8> {
    s[i].0@
}

pub open spec fn has_key<V>(s: Seq<(Vec<u8>, V)>, k: Seq<u8>) -> bool {
    exists|i: int| 0 <= i < s.len() && #[trigger] key_at(s, i) == k
}

pub open spec fn index_of<V>(s: Seq<(Vec<u8>, V)>, k: Seq<u8>) -> int {
    choose|i: int| 0 <= i < s.len() && #[trigger] key_at(s, i) == k
}

/// No key occurs twice.
pub open spec fn keys_distinct<V>(s: Seq<(Vec<u8>, V)>) -> bool {
    forall|i: int, j: int|
        0 <= i < s.len() && 0 <= j < s.len() && i != j ==> #[trigger] key_at(s, i) != #[trigger] key_at(
            s,
            j,
        )
}

/// The map that an association list stands for, each value seen through `f`.
pub open spec fn assoc_map<V, W>(s: Seq<(Vec<u8>, V)>, f: spec_fn(V) -> W) -> Map<Seq<u8>, W> {
    Map::new(|k: Seq<u8>| has_key(s, k), |k: Seq<u8>| f(s[index_of(s, k)].1))
}

proof fn lemma_index_of<V>(s: Seq<(Vec<u8>, V)>, i: int)
    requires
        keys_distinct(s),
        0 <= i < s.len(),
    ensures
        has_key(s, key_at(s, i)),
        index_of(s, key_at(s, i)) == i,
{
    let k = key_at(s, i);
    assert(has_key(s, k));
    let j = index_of(s, k);
    assert(key_at(s, j) == k);
}

proof fn lemma_assoc_lookup<V, W>(s: Seq<(Vec<u8>, V)>, i: int, f: spec_fn(V) -> W)
    requires
        keys_distinct(s),
        0 <= i < s.len(),
    ensures
        assoc_map(s, f).contains_key(key_at(s, i)),
        assoc_map(s, f)[key_at(s, i)] == f(s[i].1),
{
    lemma_index_of(s, i);
}

proof fn lemma_assoc_update<V, W>(s: Seq<(Vec<u8>, V)>, i: int, e: (Vec<u8>, V), f: spec_fn(V) -> W)
    requires
        keys_distinct(s),
        0 <= i < s.len(),
        e.0@ == key_at(s, i),
    ensures
        keys_distinct(s.update(i, e)),
        assoc_map(s.update(i, e), f) == assoc_map(s, f).insert(key_at(s, i), f(e.1)),
{
    let t = s.update(i, e);
    assert forall|j: int| 0 <= j < s.len() implies #[trigger] key_at(t, j) == key_at(s, j) by {}
    assert(keys_distinct(t)) by {
        assert forall|a: int, b: int|
            0 <= a < t.len() && 0 <= b < t.len() && a != b implies #[trigger] key_at(t, a)
            != #[trigger] key_at(t, b) by {
            assert(key_at(t, a) == key_at(s, a));
            assert(key_at(t, b) == key_at(s, b));
        }
    }
    let m = assoc_map(s, f).insert(key_at(s, i), f(e.1));
    assert forall|k: Seq<u8>| #[trigger] has_key(t, k) == m.dom().contains(k) by {
        if has_key(t, k) {
            let j = index_of(t, k);
            assert(key_at(s, j) == k);
        }
        if has_key(s, k) {
            let j = index_of(s, k);
            assert(key_at(t, j) == k);
        }
        if k == key_at(s, i) {
            assert(key_at(t, i) == k);
        }
    }
    assert(assoc_map(t, f) =~= m) by {
        assert forall|k: Seq<u8>| #[trigger] assoc_map(t, f).contains_key(k) implies assoc_map(
            t,
            f,
        )[k] == m[k] by {
            let j = index_of(t, k);
            assert(key_at(t, j) == k);
            lemma_index_of(t, j);
            if k == key_at(s, i) {
                lemma_index_of(t, i);
            } else {
                assert(j != i);
                lemma_index_of(s, j);
            }
        }
    }
}

proof fn lemma_assoc_remove<V, W>(s: Seq<(Vec<u8>, V)>, i: int, f: spec_fn(V) -> W)
    requires
        keys_distinct(s),
        0 <= i < s.len(),
    ensures
        keys_distinct(s.remove(i)),
        assoc_map(s.remove(i), f) == assoc_map(s, f).remove(key_at(s, i)),
        !has_key(s.remove(i), key_at(s, i)),
{
    let t = s.remove(i);
    let ki = key_at(s, i);
    assert forall|j: int| 0 <= j < t.len() implies #[trigger] key_at(t, j) == key_at(
        s,
        if j < i {
            j
        } else {
            j + 1
        },
    ) by {}
    assert(keys_distinct(t)) by {
        assert forall|a: int, b: int|
            0 <= a < t.len() && 0 <= b < t.len() && a != b implies #[trigger] key_at(t, a)
            != #[trigger] key_at(t, b) by {
            let sa = if a < i {
                a
            } else {
                a + 1
            };
            let sb = if b < i {
                b
            } else {
                b + 1
            };
            assert(key_at(t, a) == key_at(s, sa));
            assert(key_at(t, b) == key_at(s, sb));
        }
    }
    let m = assoc_map(s, f).remove(ki);
    assert forall|k: Seq<u8>| #[trigger] has_key(t, k) == m.dom().contains(k) by {
        if has_key(t, k) {
            let j = index_of(t, k);
            let sj = if j < i {
                j
            } else {
                j + 1
            };
            assert(key_at(t, j) == key_at(s, sj));
            assert(sj != i);
            assert(key_at(s, sj) != ki);
        }
        if has_key(s, k) && k != ki {
            let j = index_of(s, k);
            assert(key_at(s, j) == k);
            assert(j != i);
            let tj = if j < i {
                j
            } else {
                j - 1
            };
            assert(key_at(t, tj) == k);
        }
    }
    assert(assoc_map(t, f) =~= m) by {
        assert forall|k: Seq<u8>| #[trigger] assoc_map(t, f).contains_key(k) implies assoc_map(
            t,
            f,
        )[k] == m[k] by {
            let j = index_of(t, k);
            assert(key_at(t, j) == k);
            let sj = if j < i {
                j
            } else {
                j + 1
            };
            assert(key_at(s, sj) == k);
            lemma_index_of(s, sj);
            assert(t[j] == s[sj]);
        }
    }
}

proof fn lemma_assoc_push<V, W>(s: Seq<(Vec<u8>, V)>, e: (Vec<u8>, V), f: spec_fn(V) -> W)
    requires
        keys_distinct(s),
        !has_key(s, e.0@),
    ensures
        keys_distinct(s.push(e)),
        assoc_map(s.push(e), f) == assoc_map(s, f).insert(e.0@, f(e.1)),
{
    let t = s.push(e);
    let n = s.len() as int;
    assert forall|j: int| 0 <= j < s.len() implies #[trigger] key_at(t, j) == key_at(s, j) by {}
    assert(key_at(t, n) == e.0@);
    assert(keys_distinct(t)) by {
        assert forall|a: int, b: int|
            0 <= a < t.len() && 0 <= b < t.len() && a != b implies #[trigger] key_at(t, a)
            != #[trigger] key_at(t, b) by {
            if a < n && b < n {
                assert(key_at(t, a) == key_at(s, a));
                assert(key_at(t, b) == key_at(s, b));
            } else if a < n {
                assert(key_at(t, a) == key_at(s, a));
            } else if b < n {
                assert(key_at(t, b) == key_at(s, b));
            }
        }
    }
    let m = assoc_map(s, f).insert(e.0@, f(e.1));
    assert forall|k: Seq<u8>| #[trigger] has_key(t, k) == m.dom().contains(k) by {
        if has_key(t, k) {
            let j = index_of(t, k);
            if j < n {
                assert(key_at(s, j) == k);
            }
        }
        if has_key(s, k) {
            let j = index_of(s, k);
            assert(key_at(t, j) == k);
        }
    }
    assert(assoc_map(t, f) =~= m) by {
        assert forall|k: Seq<u8>| #[trigger] assoc_map(t, f).contains_key(k) implies assoc_map(
            t,
            f,
        )[k] == m[k] by {
            let j = index_of(t, k);
            assert(key_at(t, j) == k);
            lemma_index_of(t, j);
            if j < n {
                assert(key_at(s, j) == k);
                lemma_index_of(s, j);
            }
        }
    }
}

/// The index of `key`, if it occurs.
fn find<V>(s: &Vec<(Vec<u8>, V)>, key: &[u8]) -> (r: Option<usize>)
    ensures
        match r {
            Some(i) => i < s@.len() && key_at(s@, i as int) == key@,
            None => !has_key(s@, key@),
        },
{
    let mut i: usize = 0;
    while i < s.len()
        invariant
            i <= s@.len(),
            forall|j: int| 0 <= j < i ==> #[trigger] key_at(s@, j) != key@,
        decreases s@.len() - i,
    {
        if bytes_eq(s[i].0.as_slice(), key) {
            return Some(i);
        }
        i += 1;
    }
    None
}

// ---------------------------------------------------------------------------
// The store
// ---------------------------------------------------------------------------
/// A string value and the instant (in milliseconds) at which it expires.
pub struct Value {
    val: Vec<u8>,
    ex: Option<u64>,
}

impl Value {
    /// The bytes and the deadline.
    pub closed spec fn model(self) -> (Seq<u8>, Option<u64>) {
        (self.val@, self.ex)
    }
}

/// What a store holds: strings with their deadlines, and lists.
#[verifier::ext_equal]
pub struct StoreModel {
    pub strings: Map<Seq<u8>, (Seq<u8>, Option<u64>)>,
    pub lists: Map<Seq<u8>, Seq<Seq<u8>>>,
}

/// The key space.
pub struct DataStore {
    store: Vec<(Vec<u8>, Value)>,
    lists: Vec<(Vec<u8>, VecDeque<Vec<u8>>)>,
}

pub closed spec fn value_model(v: Value) -> (Seq<u8>, Option<u64>) {
    v.model()
}

pub open spec fn list_model(l: VecDeque<Vec<u8>>) -> Seq<Seq<u8>> {
    l.deep_view()
}

pub closed spec fn value_fn() -> spec_fn(Value) -> (Seq<u8>, Option<u64>) {
    |v: Value| value_model(v)
}

pub open spec fn list_fn() -> spec_fn(VecDeque<Vec<u8>>) -> Seq<Seq<u8>> {
    |l: VecDeque<Vec<u8>>| list_model(l)
}

impl View for DataStore {
    type V = StoreModel;

    closed spec fn view(&self) -> StoreModel {
        StoreModel {
            strings: assoc_map(self.store@, value_fn()),
            lists: assoc_map(self.lists@, list_fn()),
        }
    }
}

/// A value is live at `now` while its deadline, if any, lies after `now`.
pub open spec fn is_live(entry: (Seq<u8>, Option<u64>), now: u64) -> bool {
    match entry.1 {
        Some(deadline) => now < deadline,
        None => true,
    }
}

/// The deadline of a value set at `now` to expire after `ex` milliseconds;
/// none when there is no expiry or when the sum passes the clock's range.
pub open spec fn deadline_of(ex: Option<u64>, now: u64) -> Option<u64> {
    match ex {
        Some(d) => if now + d <= u64::MAX {
            Some((now + d) as u64)
        } else {
            None
        },
        None => None,
    }
}

/// Reading `key` at `now`: its value while live; an expired value is
/// removed and reads as absent.
pub open spec fn spec_get(m: StoreModel, key: Seq<u8>, now: u64) -> (Option<Seq<u8>>, StoreModel) {
    if m.strings.contains_key(key) {
        if is_live(m.strings[key], now) {
            (Some(m.strings[key].0), m)
        } else {
            (None, StoreModel { strings: m.strings.remove(key), lists: m.lists })
        }
    } else {
        (None, m)
    }
}

/// Writing `val` under `key` at `now`: the previous value, expired or not,
/// is given back.
pub open spec fn spec_set(
    m: StoreModel,
    key: Seq<u8>,
    val: Seq<u8>,
    ex: Option<u64>,
    now: u64,
) -> (Option<Seq<u8>>, StoreModel) {
    (
        if m.strings.contains_key(key) {
            Some(m.strings[key].0)
        } else {
            None
        },
        StoreModel {
            strings: m.strings.insert(key, (val, deadline_of(ex, now))),
            lists: m.lists,
        },
    )
}

/// The list under `key`, empty when there is none.
pub open spec fn list_or_empty(m: StoreModel, key: Seq<u8>) -> Seq<Seq<u8>> {
    if m.lists.contains_key(key) {
        m.lists[key]
    } else {
        Seq::empty()
    }
}

/// Appending `values` to the list under `key` (created when absent); the
/// list's new length is given back.
pub open spec fn spec_rpush(m: StoreModel, key: Seq<u8>, values: Seq<Seq<u8>>) -> (nat, StoreModel) {
    let l = list_or_empty(m, key) + values;
    (l.len(), StoreModel { strings: m.strings, lists: m.lists.insert(key, l) })
}

/// The half-open range `[lo, hi)` that the inclusive indices `start` and
/// `end` select in a list of `len` items; negative indices count from the
/// end, and the range is clamped to the list.
pub open spec fn range_bounds(len: int, start: int, end: int) -> (int, int) {
    let s = if start < 0 {
        len + start
    } else {
        start
    };
    let e = if end < 0 {
        len + end
    } else {
        end
    };
    let s = if s < 0 {
        0
    } else {
        s
    };
    if s > e || s >= len {
        (0, 0)
    } else {
        (s, if e >= len {
            len
        } else {
            e + 1
        })
    }
}

/// The items of the list under `key` from `start` to `end`, both included.
pub open spec fn spec_lrange(m: StoreModel, key: Seq<u8>, start: i64, end: i64) -> Option<
    Seq<Seq<u8>>,
> {
    if m.lists.contains_key(key) {
        let l = m.lists[key];
        let (lo, hi) = range_bounds(l.len() as int, start as int, end as int);
        Some(l.subrange(lo, hi))
    } else {
        None
    }
}

impl DataStore {
    /// No key occurs twice among the strings, nor among the lists.
    pub closed spec fn wf(self) -> bool {
        keys_distinct(self.store@) && keys_distinct(self.lists@)
    }

    /// An empty store.
    pub fn new() -> (s: Self)
        ensures
            s.wf(),
            s@.strings == Map::<Seq<u8>, (Seq<u8>, Option<u64>)>::empty(),
            s@.lists == Map::<Seq<u8>, Seq<Seq<u8>>>::empty(),
    {
        let s = DataStore { store: Vec::new(), lists: Vec::new() };
        assert(s@.strings =~= Map::<Seq<u8>, (Seq<u8>, Option<u64>)>::empty());
        assert(s@.lists =~= Map::<Seq<u8>, Seq<Seq<u8>>>::empty());
        s
    }

    /// Reads `key` at time `now` (see `spec_get`).
    pub fn get(&mut self, key: &[u8], now: u64) -> (r: Option<Vec<u8>>)
        requires
            old(self).wf(),
        ensures
            final(self).wf(),
            final(self)@ == spec_get(old(self)@, key@, now).1,
            match spec_get(old(self)@, key@, now).0 {
                Some(v) => r matches Some(x) && x@ == v,
                None => r is None,
            },
    {
        match find(&self.store, key) {
            None => {
                proof {
                    assert(!self@.strings.contains_key(key@));
                }
                None
            },
            Some(i) => {
                proof {
                    lemma_assoc_lookup(self.store@, i as int, value_fn());
                }
                let expired = match self.store[i].1.ex {
                    Some(d) => d <= now,
                    None => false,
                };
                if expired {
                    proof {
                        lemma_assoc_remove(self.store@, i as int, value_fn());
                    }
                    self.store.remove(i);
                    None
                } else {
                    Some(self.store[i].1.val.clone())
                }
            },
        }
    }

    /// Writes `val` under `key` at time `now`, to expire `ex` milliseconds
    /// later when `ex` is given (see `spec_set`); returns the previous value.
    pub fn set(&mut self, key: Vec<u8>, val: Vec<u8>, ex: Option<u64>, now: u64) -> (r: Option<Vec<u8>>)
        requires
            old(self).wf(),
        ensures
            final(self).wf(),
            final(self)@ == spec_set(old(self)@, key@, val@, ex, now).1,
            match spec_set(old(self)@, key@, val@, ex, now).0 {
                Some(v) => r matches Some(x) && x@ == v,
                None => r is None,
            },
    {
        let deadline = match ex {
            Some(d) => now.checked_add(d),
            None => None,
        };
        let entry = (key, Value { val, ex: deadline });
        match find(&self.store, entry.0.as_slice()) {
            Some(i) => {
                proof {
                    lemma_assoc_lookup(self.store@, i as int, value_fn());
                    lemma_assoc_remove(self.store@, i as int, value_fn());
                    lemma_assoc_push(self.store@.remove(i as int), entry, value_fn());
                }
                let (_, previous) = self.store.remove(i);
                self.store.push(entry);
                proof {
                    assert(self@.strings =~= old(self)@.strings.insert(entry.0@, (val@, deadline)));
                }
                Some(previous.val)
            },
            None => {
                proof {
                    lemma_assoc_push(self.store@, entry, value_fn());
                }
                self.store.push(entry);
                None
            },
        }
    }

    /// Appends `values` to the list under `key`, creating it when absent
    /// (see `spec_rpush`); returns the list's new length.
    pub fn rpush(&mut self, key: Vec<u8>, values: VecDeque<Vec<u8>>) -> (r: usize)
        requires
            old(self).wf(),
        ensures
            final(self).wf(),
            final(self)@ == spec_rpush(old(self)@, key@, values.deep_view()).1,
            r == spec_rpush(old(self)@, key@, values.deep_view()).0,
    {
        let mut values = values;
        let ghost added = values.deep_view();
        match find(&self.lists, key.as_slice()) {
            Some(i) => {
                proof {
                    lemma_assoc_lookup(self.lists@, i as int, list_fn());
                    lemma_assoc_remove(self.lists@, i as int, list_fn());
                }
                let (k, mut list) = self.lists.remove(i);
                let ghost before = list.deep_view();
                list.append(&mut values);
                assert(list.deep_view() =~= before + added);
                let n = list.len();
                proof {
                    lemma_assoc_push(self.lists@, (k, list), list_fn());
                }
                self.lists.push((k, list));
                proof {
                    assert(self@.lists =~= old(self)@.lists.insert(key@, before + added));
                }
                n
            },
            None => {
                let n = values.len();
                proof {
                    lemma_assoc_push(self.lists@, (key, values), list_fn());
                    assert(Seq::<Seq<u8>>::empty() + added =~= added);
                }
                self.lists.push((key, values));
                n
            },
        }
    }

    /// The items of the list under `key` from index `start` to index `end`,
    /// both included, negative indices counting from the end (see
    /// `spec_lrange`); `None` when there is no list under `key`.
    pub fn lrange(&self, key: &[u8], start: i64, end: i64) -> (r: Option<Vec<Vec<u8>>>)
        requires
            self.wf(),
        ensures
            match spec_lrange(self@, key@, start, end) {
                Some(items) => r matches Some(v) && v.deep_view() == items,
                None => r is None,
            },
    {
        match find(&self.lists, key) {
            None => None,
            Some(i) => {
                proof {
                    lemma_assoc_lookup(self.lists@, i as int, list_fn());
                }
                let list = &self.lists[i].1;
                let ghost items = list.deep_view();
                let len: i128 = list.len() as i128;
                let mut s: i128 = if start < 0 {
                    len + start as i128
                } else {
                    start as i128
                };
                let e: i128 = if end < 0 {
                    len + end as i128
                } else {
                    end as i128
                };
                if s < 0 {
                    s = 0;
                }
                let mut out: Vec<Vec<u8>> = Vec::new();
                if s > e || s >= len {
                    assert(out.deep_view() =~= items.subrange(0, 0));
                    return Some(out);
                }
                let hi: i128 = if e >= len {
                    len
                } else {
                    e + 1
                };
                let lo: usize = s as usize;
                let hi: usize = hi as usize;
                let mut j: usize = lo;
                while j < hi
                    invariant
                        lo <= j <= hi <= list@.len(),
                        items == list.deep_view(),
                        out.deep_view() =~= items.subrange(lo as int, j as int),
                    decreases hi - j,
                {
                    let source: &Vec<u8> = &list[j];
                    let item = source.clone();
                    let ghost before = out.deep_view();
                    proof {
                        assert(item@ =~= source@);
                        assert(item.deep_view() =~= item@);
                        assert(list@[j as int].deep_view() =~= list@[j as int]@);
                        assert(items[j as int] == list@[j as int].deep_view());
                    }
                    out.push(item);
                    j += 1;
                    assert(out.deep_view() =~= before.push(items[j - 1]));
                    assert(out.deep_view() =~= items.subrange(lo as int, j as int));
                }
                Some(out)
            },
        }
    }
}

} // verus!
