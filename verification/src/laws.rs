//! The laws of the store, proved once and for all over the map model in
//! `model`.  Each law holds of every store state the executable operations
//! can reach, because every operation's `ensures` ties its result and its
//! new contents to the very model transitions these laws speak about.

use vstd::prelude::*;
use crate::model::{
    StoreModel, is_expired_at, set_model, get_model, after_get_model, remove_model, swept_model,
};

verus! {

/// A key that was never written is absent: reading it returns nothing and
/// changes nothing.
pub proof fn lemma_get_never_written(m: StoreModel, key: Seq<char>, now: u32)
    requires
        !m.contains_key(key),
    ensures
        get_model(m, key, now) == None::<Seq<char>>,
        after_get_model(m, key, now) == m,
{
}

/// After a set with a positive time-to-live, a read before the expiry has
/// passed returns exactly the value just written.
pub proof fn lemma_set_then_get(
    m: StoreModel,
    key: Seq<char>,
    value: Seq<char>,
    now: u32,
    ttl: u32,
    t: u32,
)
    requires
        ttl > 0,
        now + ttl <= u32::MAX,
        now <= t,
        t - now < ttl,
    ensures
        get_model(set_model(m, key, value, (now + ttl) as u32), key, t) == Some(value),
        after_get_model(set_model(m, key, value, (now + ttl) as u32), key, t)
            == set_model(m, key, value, (now + ttl) as u32),
{
}

/// Last write wins: a second set for the same key leaves a single record
/// holding the second value and the second expiry; the first write is
/// gone without a trace.
pub proof fn lemma_set_twice(
    m: StoreModel,
    key: Seq<char>,
    v1: Seq<char>,
    e1: u32,
    v2: Seq<char>,
    e2: u32,
)
    ensures
        set_model(set_model(m, key, v1, e1), key, v2, e2) == set_model(m, key, v2, e2),
        set_model(set_model(m, key, v1, e1), key, v2, e2)[key] == (v2, Some(e2)),
{
    assert(set_model(set_model(m, key, v1, e1), key, v2, e2) =~= set_model(m, key, v2, e2));
}

/// Once the clock has advanced strictly past the expiry a set computed, a
/// read returns absent and deletes the record from storage.
pub proof fn lemma_expiry_passes(
    m: StoreModel,
    key: Seq<char>,
    value: Seq<char>,
    now: u32,
    ttl: u32,
    t: u32,
)
    requires
        now + ttl <= u32::MAX,
        now + ttl < t,
    ensures
        get_model(set_model(m, key, value, (now + ttl) as u32), key, t) == None::<Seq<char>>,
        after_get_model(set_model(m, key, value, (now + ttl) as u32), key, t)
            == set_model(m, key, value, (now + ttl) as u32).remove(key),
        !after_get_model(set_model(m, key, value, (now + ttl) as u32), key, t).contains_key(key),
{
}

/// Removing a key that holds no record changes nothing.
pub proof fn lemma_remove_absent(m: StoreModel, key: Seq<char>)
    requires
        !m.contains_key(key),
    ensures
        remove_model(m, key) == m,
{
    assert(m.remove(key) =~= m);
}

/// A sweep removes exactly the expired records: every record expired at
/// `now` is gone, every live record is still there, unchanged, and no key
/// appears that was not there before.
pub proof fn lemma_sweep_exact(m: StoreModel, now: u32)
    ensures
        forall|k: Seq<char>|
            #[trigger] m.contains_key(k) && is_expired_at(m[k].1, now)
                ==> !swept_model(m, now).contains_key(k),
        forall|k: Seq<char>|
            #[trigger] m.contains_key(k) && !is_expired_at(m[k].1, now)
                ==> swept_model(m, now).contains_key(k) && swept_model(m, now)[k] == m[k],
        forall|k: Seq<char>|
            #[trigger] swept_model(m, now).contains_key(k) ==> m.contains_key(k),
{
}

/// Sweeping twice at the same instant is idempotent: the second sweep
/// finds nothing left to delete.
pub proof fn lemma_sweep_idempotent(m: StoreModel, now: u32)
    ensures
        swept_model(swept_model(m, now), now) == swept_model(m, now),
{
    assert(swept_model(swept_model(m, now), now) =~= swept_model(m, now));
}

} // verus!
