//! What reads give back of writes in the key space.
use crate::data_store::{
    deadline_of, is_live, list_or_empty, range_bounds, spec_get, spec_lrange, spec_rpush, spec_set,
    StoreModel,
};
use vstd::prelude::*;

verus! {

/// Law: a read gives back the last write while it is live. After `key` is
/// set to `val` at `t_set`, reading it at `t_get` gives `val` unless its
/// deadline has passed, and nothing once it has.
pub proof fn law_get_after_set(
    m: StoreModel,
    key: Seq<u8>,
    val: Seq<u8>,
    ex: Option<u64>,
    t_set: u64,
    t_get: u64,
)
    ensures
        spec_get(spec_set(m, key, val, ex, t_set).1, key, t_get).0 == (if is_live(
            (val, deadline_of(ex, t_set)),
            t_get,
        ) {
            Some(val)
        } else {
            None::<Seq<u8>>
        }),
        ex is None ==> spec_get(spec_set(m, key, val, ex, t_set).1, key, t_get).0 == Some(val),
{
}

/// Law: a value set to expire `d` milliseconds after `t_set` reads back
/// before `t_set + d` and is gone from `t_set + d` on.
pub proof fn law_expiry(m: StoreModel, key: Seq<u8>, val: Seq<u8>, d: u64, t_set: u64, t_get: u64)
    requires
        t_set + d <= u64::MAX,
    ensures
        t_get < t_set + d ==> spec_get(spec_set(m, key, val, Some(d), t_set).1, key, t_get).0
            == Some(val),
        t_get >= t_set + d ==> spec_get(spec_set(m, key, val, Some(d), t_set).1, key, t_get).0
            is None,
        t_get >= t_set + d ==> !spec_get(
            spec_set(m, key, val, Some(d), t_set).1,
            key,
            t_get,
        ).1.strings.contains_key(key),
{
}

/// Law: writing one key leaves what every other key reads unchanged.
pub proof fn law_set_other_key(
    m: StoreModel,
    key: Seq<u8>,
    val: Seq<u8>,
    ex: Option<u64>,
    t_set: u64,
    other: Seq<u8>,
    t_get: u64,
)
    requires
        other != key,
    ensures
        spec_get(spec_set(m, key, val, ex, t_set).1, other, t_get).0 == spec_get(
            m,
            other,
            t_get,
        ).0,
{
}

/// Law: reading a key never changes what any key reads at the same time or
/// later, apart from dropping a value that has expired.
pub proof fn law_get_keeps_live_values(m: StoreModel, key: Seq<u8>, now: u64, other: Seq<u8>, later: u64)
    requires
        now <= later,
    ensures
        spec_get(spec_get(m, key, now).1, other, later).0 == spec_get(m, other, later).0,
{
}

/// Law: appending to a list makes it the old list followed by the new
/// values; the reply is that length, and the whole list reads back.
pub proof fn law_rpush_then_lrange(m: StoreModel, key: Seq<u8>, values: Seq<Seq<u8>>)
    ensures
        spec_rpush(m, key, values).0 == list_or_empty(m, key).len() + values.len(),
        spec_lrange(spec_rpush(m, key, values).1, key, 0i64, -1i64) == Some(
            list_or_empty(m, key) + values,
        ),
        spec_rpush(m, key, values).1.strings == m.strings,
{
    let l = list_or_empty(m, key) + values;
    let (lo, hi) = range_bounds(l.len() as int, 0, -1);
    if l.len() == 0 {
        assert(l.subrange(lo, hi) =~= l);
    } else {
        assert(l.subrange(lo, hi) =~= l);
    }
}

/// Law: a range of a list holds the items from `start` to `end` in order,
/// with negative indices counted from the end.
pub proof fn law_lrange_items(m: StoreModel, key: Seq<u8>, start: i64, end: i64, i: int)
    requires
        m.lists.contains_key(key),
        0 <= start,
        start <= i <= end,
        i < m.lists[key].len(),
    ensures
        spec_lrange(m, key, start, end) matches Some(items) && items[i - start] == m.lists[key][i],
{
}

/// Law: appending to one list leaves every other key's list as it was:
/// present with the same items, or absent; every range read of it too.
pub proof fn law_rpush_other_key(
    m: StoreModel,
    key: Seq<u8>,
    values: Seq<Seq<u8>>,
    other: Seq<u8>,
    start: i64,
    end: i64,
)
    requires
        other != key,
    ensures
        spec_rpush(m, key, values).1.lists.contains_key(other) == m.lists.contains_key(other),
        m.lists.contains_key(other) ==> spec_rpush(m, key, values).1.lists[other] == m.lists[other],
        spec_lrange(spec_rpush(m, key, values).1, other, start, end) == spec_lrange(
            m,
            other,
            start,
            end,
        ),
{
}

/// Law: a negative end counts from the end of the list. For a list of `n`
/// items, an end `e` with `-n <= e < 0` and a start `s` with
/// `0 <= s <= n + e`, the range holds exactly the items at `s` up to
/// `n + e`, so it has `n + e - s + 1` of them.
pub proof fn law_lrange_negative_end(m: StoreModel, key: Seq<u8>, start: i64, end: i64)
    requires
        m.lists.contains_key(key),
        end < 0,
        -m.lists[key].len() <= end,
        0 <= start <= m.lists[key].len() + end,
    ensures
        spec_lrange(m, key, start, end) == Some(
            m.lists[key].subrange(start as int, m.lists[key].len() + end + 1),
        ),
        spec_lrange(m, key, start, end).unwrap().len() == m.lists[key].len() + end - start + 1,
{
}

/// Law: a negative start counts from the end of the list. For a list of `n`
/// items, a start `s` with `-n <= s < 0` and an end `e` with
/// `n + s <= e < n`, the range holds exactly the items at `n + s` up to `e`.
pub proof fn law_lrange_negative_start(m: StoreModel, key: Seq<u8>, start: i64, end: i64)
    requires
        m.lists.contains_key(key),
        start < 0,
        -m.lists[key].len() <= start,
        m.lists[key].len() + start <= end < m.lists[key].len(),
    ensures
        spec_lrange(m, key, start, end) == Some(
            m.lists[key].subrange(m.lists[key].len() + start, end + 1),
        ),
{
}

} // verus!
