//! The executable store: a table of records mirrored from the durable
//! backing storage, with one method per operation.  Every method is
//! specified against the map model in `model`, and every mutating method
//! returns the durable write the host must apply to keep the backing
//! storage in step.

use vstd::prelude::*;
use crate::model::{
    StoreModel, is_expired_at, expired_at, set_model, get_model, after_get_model, remove_model,
    swept_model,
};

verus! {

/// One persisted record: a key, its opaque string value, and the absolute
/// expiry timestamp after which the record is considered expired.  `None`
/// marks a record persisted without an expiry; it is treated as already
/// expired.
pub struct Record {
    pub key: String,
    pub value: String,
    pub expiry: Option<u32>,
}

impl Record {
    /// The pair this record contributes to the store's contents.
    pub open spec fn entry(self) -> (Seq<char>, Option<u32>) {
        (self.value@, self.expiry)
    }
}

/// No two records share a key: the table holds at most one record per key.
pub open spec fn unique_keys(rs: Seq<Record>) -> bool {
    forall|i: int, j: int| 0 <= i < j < rs.len() ==> rs[i].key@ != rs[j].key@
}

/// The contents of a table of records, as a map from key to entry.
pub open spec fn contents_of(rs: Seq<Record>) -> StoreModel
    decreases rs.len(),
{
    if rs.len() == 0 {
        Map::empty()
    } else {
        contents_of(rs.drop_last()).insert(rs.last().key@, rs.last().entry())
    }
}

/// A key is in the contents exactly when some record holds it.
proof fn lemma_contents_contains(rs: Seq<Record>, k: Seq<char>)
    ensures
        contents_of(rs).contains_key(k) <==> (exists|i: int| 0 <= i < rs.len() && rs[i].key@ == k),
    decreases rs.len(),
{
    if rs.len() > 0 {
        lemma_contents_contains(rs.drop_last(), k);
        if rs.last().key@ == k {
            assert(rs[rs.len() - 1].key@ == k);
        } else {
            if exists|i: int| 0 <= i < rs.len() && rs[i].key@ == k {
                let i = choose|i: int| 0 <= i < rs.len() && rs[i].key@ == k;
                assert(rs.drop_last()[i] == rs[i]);
            }
        }
    }
}

/// Under unique keys, the contents map each record's key to its entry.
proof fn lemma_contents_at(rs: Seq<Record>, i: int)
    requires
        unique_keys(rs),
        0 <= i < rs.len(),
    ensures
        contents_of(rs).contains_key(rs[i].key@),
        contents_of(rs)[rs[i].key@] == rs[i].entry(),
    decreases rs.len(),
{
    if i < rs.len() - 1 {
        assert(unique_keys(rs.drop_last())) by {
            assert(forall|p: int, q: int|
                0 <= p < q < rs.drop_last().len() ==> rs.drop_last()[p] == rs[p]
                    && rs.drop_last()[q] == rs[q]);
        };
        lemma_contents_at(rs.drop_last(), i);
        assert(rs.drop_last()[i] == rs[i]);
        assert(rs[i].key@ != rs.last().key@);
    }
}

/// Appending a record inserts its entry into the contents.
proof fn lemma_contents_push(rs: Seq<Record>, r: Record)
    ensures
        contents_of(rs.push(r)) == contents_of(rs).insert(r.key@, r.entry()),
{
    assert(rs.push(r).drop_last() =~= rs);
    assert(rs.push(r).last() == r);
}

/// Extending a prefix by one record inserts that record's entry.
proof fn lemma_contents_take_step(rs: Seq<Record>, i: int)
    requires
        0 <= i < rs.len(),
    ensures
        contents_of(rs.take(i + 1)) == contents_of(rs.take(i)).insert(rs[i].key@, rs[i].entry()),
{
    assert(rs.take(i + 1).drop_last() =~= rs.take(i));
    assert(rs.take(i + 1).last() == rs[i]);
}

/// If every key of `kept` already occurs in the prefix `rs.take(i)` of a
/// table with unique keys, then no record of `kept` holds the key of
/// `rs[i]` itself.
proof fn lemma_prefix_key_fresh(rs: Seq<Record>, kept: Seq<Record>, i: int)
    requires
        unique_keys(rs),
        0 <= i < rs.len(),
        forall|k: Seq<char>|
            contents_of(kept).contains_key(k) ==> contents_of(rs.take(i)).contains_key(k),
    ensures
        forall|j: int| 0 <= j < kept.len() ==> kept[j].key@ != rs[i].key@,
{
    assert forall|j: int| 0 <= j < kept.len() implies kept[j].key@ != rs[i].key@ by {
        if kept[j].key@ == rs[i].key@ {
            lemma_contents_contains(kept, rs[i].key@);
            lemma_contents_contains(rs.take(i), rs[i].key@);
            let l = choose|l: int|
                0 <= l < rs.take(i).len() && rs.take(i)[l].key@ == rs[i].key@;
            assert(rs[l].key@ == rs[i].key@);
        }
    };
}

/// The expiry-aware key-value store: the in-memory mirror of the durable
/// table of records.  The host loads it from storage once, and applies the
/// `Action` returned by each mutating operation to keep storage in step.
pub struct Store {
    records: Vec<Record>,
}

/// The durable write that an operation implies.  The host translates it
/// into the corresponding write on the backing storage engine.
pub enum Action {
    /// Insert a fresh record.
    Insert { key: String, value: String, expiry: u32 },
    /// Overwrite the value and expiry of the existing record for `key`.
    Update { key: String, value: String, expiry: u32 },
    /// Delete the record for `key`.
    Delete { key: String },
    /// Delete, in bulk, every record expired at time `cutoff`.
    DeleteExpiredAt { cutoff: u32 },
}

impl Action {
    /// The action installs `(value, expiry)` under `key` in a fresh record.
    pub open spec fn is_insert(self, key: Seq<char>, value: Seq<char>, expiry: u32) -> bool {
        &&& self matches Action::Insert { key: k, value: v, expiry: e }
        &&& k@ == key
        &&& v@ == value
        &&& e == expiry
    }

    /// The action overwrites the record for `key` with `(value, expiry)`.
    pub open spec fn is_update(self, key: Seq<char>, value: Seq<char>, expiry: u32) -> bool {
        &&& self matches Action::Update { key: k, value: v, expiry: e }
        &&& k@ == key
        &&& v@ == value
        &&& e == expiry
    }

    /// The action deletes the record for `key`.
    pub open spec fn is_delete(self, key: Seq<char>) -> bool {
        &&& self matches Action::Delete { key: k }
        &&& k@ == key
    }

    /// The action deletes every record expired at `cutoff`.
    pub open spec fn is_sweep(self, cutoff: u32) -> bool {
        self matches Action::DeleteExpiredAt { cutoff: c } && c == cutoff
    }
}

impl Store {
    /// The store's contents as the map model.
    pub closed spec fn contents(self) -> StoreModel {
        contents_of(self.records@)
    }

    /// Well-formed: at most one record per key.
    pub closed spec fn wf(self) -> bool {
        unique_keys(self.records@)
    }

    /// How many records the table physically holds, expired ones included.
    pub closed spec fn record_count(self) -> nat {
        self.records@.len()
    }

    /// An empty store.
    pub fn new() -> (s: Store)
        ensures
            s.wf(),
            s.contents() == Map::<Seq<char>, (Seq<char>, Option<u32>)>::empty(),
            s.record_count() == 0,
    {
        Store { records: Vec::new() }
    }

    /// Rebuild a store from the records read out of durable storage.
    /// Succeeds exactly when no key occurs twice; a duplicated key means
    /// the table is corrupted, and no single contents would be right.
    pub fn from_records(records: Vec<Record>) -> (r: Option<Store>)
        ensures
            match r {
                Some(s) => {
                    &&& s.wf()
                    &&& unique_keys(records@)
                    &&& s.contents() == contents_of(records@)
                    &&& s.record_count() == records@.len()
                },
                None => !unique_keys(records@),
            },
    {
        let ghost rs = records@;
        let mut out: Vec<Record> = Vec::new();
        let n = records.len();
        let mut i: usize = 0;
        while i < n
            invariant
                n == rs.len(),
                rs == records@,
                i <= n,
                unique_keys(rs.take(i as int)),
                out@.len() == i,
                forall|l: int| 0 <= l < i ==> out@[l] == rs[l],
            decreases n - i,
        {
            let mut j: usize = 0;
            while j < i
                invariant
                    n == rs.len(),
                    rs == records@,
                    j <= i,
                    i < n,
                    forall|l: int| 0 <= l < j ==> rs[l].key@ != rs[i as int].key@,
                decreases i - j,
            {
                if records[j].key == records[i].key {
                    proof {
                        assert(0 <= j < i < rs.len() && rs[j as int].key@ == rs[i as int].key@);
                    }
                    return None;
                }
                j += 1;
            }
            proof {
                assert forall|p: int, q: int|
                    #![trigger rs.take(i as int + 1)[p], rs.take(i as int + 1)[q]]
                    0 <= p < q < rs.take(i as int + 1).len()
                        implies rs.take(i as int + 1)[p].key@ != rs.take(i as int + 1)[q].key@ by {
                    if q < i as int {
                        assert(rs.take(i as int)[p].key@ != rs.take(i as int)[q].key@);
                    }
                };
            }
            let rec = &records[i];
            out.push(Record { key: rec.key.clone(), value: rec.value.clone(), expiry: rec.expiry });
            i += 1;
        }
        proof {
            assert(out@ =~= rs);
            assert(rs.take(n as int) =~= rs);
        }
        Some(Store { records: out })
    }

    /// The index of the record holding `key`, if one does.
    fn find(&self, key: &String) -> (r: Option<usize>)
        requires
            self.wf(),
        ensures
            match r {
                Some(i) => {
                    &&& i < self.records@.len()
                    &&& self.records@[i as int].key@ == key@
                    &&& self.contents().contains_key(key@)
                    &&& self.contents()[key@] == self.records@[i as int].entry()
                },
                None => !self.contents().contains_key(key@),
            },
    {
        let n = self.records.len();
        let mut i: usize = 0;
        while i < n
            invariant
                n == self.records@.len(),
                i <= n,
                self.wf(),
                forall|j: int| 0 <= j < i ==> self.records@[j].key@ != key@,
            decreases n - i,
        {
            if self.records[i].key == *key {
                proof {
                    lemma_contents_at(self.records@, i as int);
                }
                return Some(i);
            }
            i += 1;
        }
        proof {
            lemma_contents_contains(self.records@, key@);
        }
        None
    }

    /// Rebuild the table without the record for `key`, reporting whether
    /// one was present.
    fn delete_key(&mut self, key: &String) -> (found: bool)
        requires
            old(self).wf(),
        ensures
            final(self).wf(),
            final(self).contents() == old(self).contents().remove(key@),
            found == old(self).contents().contains_key(key@),
    {
        let ghost rs = self.records@;
        let mut kept: Vec<Record> = Vec::new();
        let mut found = false;
        let n = self.records.len();
        let mut i: usize = 0;
        while i < n
            invariant
                n == rs.len(),
                rs == self.records@,
                i <= n,
                unique_keys(rs),
                unique_keys(kept@),
                contents_of(kept@) == contents_of(rs.take(i as int)).remove(key@),
                found == contents_of(rs.take(i as int)).contains_key(key@),
            decreases n - i,
        {
            let rec = &self.records[i];
            proof {
                lemma_contents_take_step(rs, i as int);
            }
            if rec.key == *key {
                found = true;
                proof {
                    assert(contents_of(rs.take(i as int + 1)).remove(key@)
                        =~= contents_of(rs.take(i as int)).remove(key@));
                }
            } else {
                let copy = Record { key: rec.key.clone(), value: rec.value.clone(), expiry: rec.expiry };
                proof {
                    assert(copy == rs[i as int]);
                    assert(forall|k: Seq<char>|
                        contents_of(kept@).contains_key(k)
                            ==> contents_of(rs.take(i as int)).contains_key(k));
                    lemma_prefix_key_fresh(rs, kept@, i as int);
                    lemma_contents_push(kept@, copy);
                    assert(unique_keys(kept@.push(copy)));
                    assert(contents_of(kept@).insert(rs[i as int].key@, rs[i as int].entry())
                        =~= contents_of(rs.take(i as int + 1)).remove(key@));
                }
                kept.push(copy);
            }
            i += 1;
        }
        proof {
            assert(rs.take(n as int) =~= rs);
        }
        self.records = kept;
        found
    }

    /// Whether the table physically holds a record for `key`, expired or
    /// not: the direct inspection of storage, untouched by expiry.
    pub fn has_record(&self, key: &String) -> (r: bool)
        requires
            self.wf(),
        ensures
            r == self.contents().contains_key(key@),
    {
        self.find(key).is_some()
    }

    /// `Set(key, value, ttl)` at time `now`: installs `value` under `key`
    /// with the absolute expiry `now + ttl`, overwriting any previous
    /// record for `key`, expired or not.  Returns the durable write this
    /// implies: an insert for a fresh key, an update for an existing one.
    pub fn set(&mut self, key: String, value: String, ttl: u32, now: u32) -> (r: Action)
        requires
            old(self).wf(),
            now + ttl <= u32::MAX,
        ensures
            final(self).wf(),
            final(self).contents() == set_model(
                old(self).contents(),
                key@,
                value@,
                (now + ttl) as u32,
            ),
            (if old(self).contents().contains_key(key@) {
                r.is_update(key@, value@, (now + ttl) as u32)
            } else {
                r.is_insert(key@, value@, (now + ttl) as u32)
            }),
    {
        let expiry: u32 = now + ttl;
        let found = self.delete_key(&key);
        let rec = Record { key: key.clone(), value: value.clone(), expiry: Some(expiry) };
        proof {
            lemma_contents_contains(self.records@, key@);
            assert forall|p: int, q: int|
                0 <= p < q < self.records@.push(rec).len()
                    implies self.records@.push(rec)[p].key@ != self.records@.push(rec)[q].key@ by {
                if q < self.records@.len() {
                    assert(self.records@[p].key@ != self.records@[q].key@);
                }
            };
            lemma_contents_push(self.records@, rec);
            assert(old(self).contents().remove(key@).insert(key@, (value@, Some(expiry)))
                =~= set_model(old(self).contents(), key@, value@, expiry));
        }
        self.records.push(rec);
        if found {
            Action::Update { key, value, expiry }
        } else {
            Action::Insert { key, value, expiry }
        }
    }

    /// `Get(key)` at time `now`: the stored value if the record is live;
    /// absent if no record exists or the record is expired.  Reading an
    /// expired record deletes it, and the outcome then carries the durable
    /// delete the host must apply.
    pub fn get(&mut self, key: &String, now: u32) -> (r: GetOutcome)
        requires
            old(self).wf(),
        ensures
            final(self).wf(),
            final(self).contents() == after_get_model(old(self).contents(), key@, now),
            (match r.value {
                Some(v) => get_model(old(self).contents(), key@, now) == Some(v@),
                None => get_model(old(self).contents(), key@, now) is None,
            }),
            (if old(self).contents().contains_key(key@)
                && is_expired_at(old(self).contents()[key@].1, now) {
                r.action matches Some(a) && a.is_delete(key@)
            } else {
                r.action is None
            }),
    {
        match self.find(key) {
            None => GetOutcome { value: None, action: None },
            Some(i) => {
                let expiry = self.records[i].expiry;
                if expired_at(expiry, now) {
                    let _ = self.delete_key(key);
                    GetOutcome { value: None, action: Some(Action::Delete { key: key.clone() }) }
                } else {
                    let v = self.records[i].value.clone();
                    GetOutcome { value: Some(v), action: None }
                }
            },
        }
    }

    /// `Remove(key)`: deletes the record for `key` if one exists; a
    /// missing key is a successful no-op, never an error.  Returns the
    /// durable delete to apply, or nothing when nothing was stored.
    pub fn remove(&mut self, key: &String) -> (r: Option<Action>)
        requires
            old(self).wf(),
        ensures
            final(self).wf(),
            final(self).contents() == remove_model(old(self).contents(), key@),
            (if old(self).contents().contains_key(key@) {
                r matches Some(a) && a.is_delete(key@)
            } else {
                r is None
            }),
    {
        let found = self.delete_key(key);
        if found {
            Some(Action::Delete { key: key.clone() })
        } else {
            None
        }
    }

    /// `SweepExpired` at time `now`: deletes every record expired at `now`
    /// — by the same comparison `get` uses — and leaves every live record
    /// untouched.  Reports how many records were removed, and the bulk
    /// durable delete the host must apply.
    pub fn sweep_expired(&mut self, now: u32) -> (r: SweepOutcome)
        requires
            old(self).wf(),
        ensures
            final(self).wf(),
            final(self).contents() == swept_model(old(self).contents(), now),
            final(self).record_count() + r.removed == old(self).record_count(),
            r.action.is_sweep(now),
    {
        let ghost rs = self.records@;
        let mut kept: Vec<Record> = Vec::new();
        let mut removed: usize = 0;
        let n = self.records.len();
        let mut i: usize = 0;
        while i < n
            invariant
                n == rs.len(),
                rs == self.records@,
                i <= n,
                unique_keys(rs),
                unique_keys(kept@),
                contents_of(kept@) == swept_model(contents_of(rs.take(i as int)), now),
                kept@.len() + removed == i,
            decreases n - i,
        {
            let rec = &self.records[i];
            proof {
                lemma_contents_take_step(rs, i as int);
            }
            if expired_at(rec.expiry, now) {
                removed += 1;
                proof {
                    lemma_contents_contains(rs.take(i as int), rs[i as int].key@);
                    if contents_of(rs.take(i as int)).contains_key(rs[i as int].key@) {
                        let l = choose|l: int|
                            0 <= l < rs.take(i as int).len()
                                && rs.take(i as int)[l].key@ == rs[i as int].key@;
                        assert(rs[l].key@ == rs[i as int].key@);
                        assert(false);
                    }
                    assert(swept_model(contents_of(rs.take(i as int + 1)), now)
                        =~= swept_model(contents_of(rs.take(i as int)), now));
                }
            } else {
                let copy = Record {
                    key: rec.key.clone(),
                    value: rec.value.clone(),
                    expiry: rec.expiry,
                };
                proof {
                    assert(copy == rs[i as int]);
                    assert(forall|k: Seq<char>|
                        contents_of(kept@).contains_key(k)
                            ==> contents_of(rs.take(i as int)).contains_key(k));
                    lemma_prefix_key_fresh(rs, kept@, i as int);
                    lemma_contents_push(kept@, copy);
                    assert(unique_keys(kept@.push(copy)));
                    assert(contents_of(kept@).insert(rs[i as int].key@, rs[i as int].entry())
                        =~= swept_model(contents_of(rs.take(i as int + 1)), now));
                }
                kept.push(copy);
            }
            i += 1;
        }
        proof {
            assert(rs.take(n as int) =~= rs);
        }
        self.records = kept;
        SweepOutcome { removed, action: Action::DeleteExpiredAt { cutoff: now } }
    }
}

/// Under unique keys, a table's contents hold exactly one entry per record.
proof fn lemma_contents_len(rs: Seq<Record>)
    requires
        unique_keys(rs),
    ensures
        contents_of(rs).dom().finite(),
        contents_of(rs).dom().len() == rs.len(),
    decreases rs.len(),
{
    if rs.len() == 0 {
        assert(contents_of(rs).dom() =~= Set::<Seq<char>>::empty());
    } else {
        assert(forall|p: int|
            0 <= p < rs.drop_last().len() ==> rs.drop_last()[p] == rs[p]);
        lemma_contents_len(rs.drop_last());
        lemma_contents_contains(rs.drop_last(), rs.last().key@);
        assert(contents_of(rs).dom()
            =~= contents_of(rs.drop_last()).dom().insert(rs.last().key@));
    }
}

/// A well-formed store physically holds exactly one record per key of its
/// contents: `record_count` equals the cardinality of the contents.  In
/// particular, an operation that leaves the contents unchanged — such as a
/// sweep repeated at the same instant — removes zero records.
pub proof fn lemma_record_count_matches_contents(s: Store)
    requires
        s.wf(),
    ensures
        s.contents().dom().finite(),
        s.record_count() == s.contents().dom().len(),
{
    lemma_contents_len(s.records@);
}

/// A second sweep at the same instant removes zero records.  `first` is a
/// store a sweep at `now` just produced (its contents are some swept
/// contents), `second` the store after sweeping `first` again at `now`,
/// and `removed` the count that second sweep reported.
pub proof fn lemma_second_sweep_removes_nothing(
    m: StoreModel,
    first: Store,
    second: Store,
    removed: nat,
    now: u32,
)
    requires
        first.wf(),
        second.wf(),
        first.contents() == swept_model(m, now),
        second.contents() == swept_model(first.contents(), now),
        second.record_count() + removed == first.record_count(),
    ensures
        removed == 0,
{
    crate::laws::lemma_sweep_idempotent(m, now);
    lemma_record_count_matches_contents(first);
    lemma_record_count_matches_contents(second);
}

/// What a read returns: the value, if the record was present and live, and
/// the durable delete to apply when the read lazily expired a record.
pub struct GetOutcome {
    pub value: Option<String>,
    pub action: Option<Action>,
}

/// What a sweep returns: how many records it removed, and the bulk durable
/// delete to apply.
pub struct SweepOutcome {
    pub removed: usize,
    pub action: Action,
}

} // verus!
