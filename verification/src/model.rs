//! The mathematical model of the store: its contents as a finite map from
//! keys to `(value, expiry)` pairs, and one transition function per
//! operation.  The executable store in `store` is specified against these,
//! and the laws in `laws` are proved over them.

use vstd::prelude::*;

verus! {

/// The abstract contents of the store: a finite map from each key to the
/// pair of its stored value and its absolute expiry timestamp (whole
/// seconds since the Unix epoch).  An expiry of `None` models a record
/// that was persisted without an expiry; such a record counts as already
/// expired wherever expiry is checked.
pub type StoreModel = Map<Seq<char>, (Seq<char>, Option<u32>)>;

/// The one expiry test shared by reads and sweeps: a record is expired at
/// time `now` when its expiry lies strictly in the past.  A record without
/// an expiry is treated as already expired.
pub open spec fn is_expired_at(expiry: Option<u32>, now: u32) -> bool {
    match expiry {
        Some(e) => e < now,
        None => true,
    }
}

/// The executable twin of `is_expired_at`.
pub fn expired_at(expiry: Option<u32>, now: u32) -> (r: bool)
    ensures
        r == is_expired_at(expiry, now),
{
    match expiry {
        Some(e) => e < now,
        None => true,
    }
}

/// Contents after `set(key, value)` computed the absolute expiry: the
/// record for `key` is installed or overwritten in place, every other key
/// untouched.
pub open spec fn set_model(m: StoreModel, key: Seq<char>, value: Seq<char>, expiry: u32) -> StoreModel {
    m.insert(key, (value, Some(expiry)))
}

/// What `get(key)` at time `now` returns: the stored value of a live
/// record, and absent both for a missing and for an expired record.
pub open spec fn get_model(m: StoreModel, key: Seq<char>, now: u32) -> Option<Seq<char>> {
    if m.contains_key(key) && !is_expired_at(m[key].1, now) {
        Some(m[key].0)
    } else {
        None
    }
}

/// Contents after `get(key)` at time `now`: reading an expired record
/// deletes it (lazy expiry); otherwise the contents are unchanged.
pub open spec fn after_get_model(m: StoreModel, key: Seq<char>, now: u32) -> StoreModel {
    if m.contains_key(key) && is_expired_at(m[key].1, now) {
        m.remove(key)
    } else {
        m
    }
}

/// Contents after `remove(key)`: the record is gone; removing an absent
/// key changes nothing.
pub open spec fn remove_model(m: StoreModel, key: Seq<char>) -> StoreModel {
    m.remove(key)
}

/// Contents after `sweep_expired` at time `now`: exactly the records that
/// are not expired at `now` remain, each unchanged.
pub open spec fn swept_model(m: StoreModel, now: u32) -> StoreModel {
    Map::new(
        |k: Seq<char>| m.contains_key(k) && !is_expired_at(m[k].1, now),
        |k: Seq<char>| m[k],
    )
}

} // verus!
