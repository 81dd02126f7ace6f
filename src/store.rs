use vstd::prelude::*;
use vstd::utf8::*;
use vstd::string::*;
use crate::codec::{decode_meta, encode_meta, encode_record, lemma_record_injective, string_from_utf8};
use crate::error::StoreError;
use crate::meta::{provisioned, MetaView, PasteMeta};
use crate::policy::{greedy_eviction, is_candidate, lemma_reclaimed_distinct, lemma_reclaimed_exactly, plan_cleanup, reclaimed};

verus! {

broadcast use {encode_utf8_valid_utf8, encode_utf8_decode_utf8};

#[verifier::external_type_specification]
#[verifier::external_body]
pub struct ExDb(sled::Db);

#[verifier::external_type_specification]
#[verifier::external_body]
pub struct ExSledError(sled::Error);

/// The key-value pairs that an open sled database holds, as seen through this handle.
pub uninterp spec fn db_contents(db: sled::Db) -> Map<Seq<u8>, Seq<u8>>;

/// Relies on `sled::open`: opens or creates the database at `path`.
#[verifier::external_body]
fn db_open(path: &str) -> (r: Result<sled::Db, sled::Error>) {
    sled::open(path)
}

/// Relies on `sled::Config::temporary`: opens a database at `path` that is deleted
/// when dropped.
#[verifier::external_body]
fn db_open_temporary(path: &str) -> (r: Result<sled::Db, sled::Error>) {
    sled::Config::new().path(path).temporary(true).open()
}

/// Relies on `sled::Tree::get`: the value stored under `key`, if any.
#[verifier::external_body]
fn db_get(db: &sled::Db, key: &Vec<u8>) -> (r: Result<Option<Vec<u8>>, sled::Error>)
    ensures
        r matches Ok(Some(v)) ==> db_contents(*db).contains_key(key@) && db_contents(*db)[key@] == v@,
        r matches Ok(None) ==> !db_contents(*db).contains_key(key@),
{
    db.get(key).map(|o| o.map(|v| v.to_vec()))
}

/// Relies on `sled::Tree::insert`: stores `value` under `key`, replacing what was there.
#[verifier::external_body]
fn db_insert(db: &mut sled::Db, key: &Vec<u8>, value: Vec<u8>) -> (r: Result<(), sled::Error>)
    ensures
        r is Ok ==> db_contents(*final(db)) == db_contents(*old(db)).insert(key@, value@),
{
    db.insert(key, value).map(|_| ())
}

/// Relies on `sled::Tree::compare_and_swap` with no expected value: stores `value`
/// under `key` only when the key is absent, in one atomic step.
#[verifier::external_body]
fn db_insert_new(db: &mut sled::Db, key: &Vec<u8>, value: Vec<u8>) -> (r: Result<bool, sled::Error>)
    ensures
        r matches Ok(true) ==> !db_contents(*old(db)).contains_key(key@)
            && db_contents(*final(db)) == db_contents(*old(db)).insert(key@, value@),
        r matches Ok(false) ==> db_contents(*old(db)).contains_key(key@)
            && db_contents(*final(db)) == db_contents(*old(db)),
{
    db.compare_and_swap(key, None as Option<&[u8]>, Some(value)).map(|res| res.is_ok())
}

/// Relies on `sled::Tree::remove`: deletes `key`, reporting whether it was there.
#[verifier::external_body]
fn db_remove(db: &mut sled::Db, key: &Vec<u8>) -> (r: Result<bool, sled::Error>)
    ensures
        r matches Ok(b) ==> b == db_contents(*old(db)).contains_key(key@)
            && db_contents(*final(db)) == db_contents(*old(db)).remove(key@),
{
    db.remove(key).map(|o| o.is_some())
}

/// Relies on `sled::Tree::iter`: every stored pair once, in key order.
#[verifier::external_body]
fn db_entries(db: &sled::Db) -> (r: Result<Vec<(Vec<u8>, Vec<u8>)>, sled::Error>)
    ensures
        r matches Ok(v) ==> {
            &&& forall|i: int, j: int| 0 <= i < j < v@.len() ==> v@[i].0@ != v@[j].0@
            &&& forall|i: int| 0 <= i < v@.len()
                ==> db_contents(*db).contains_key(#[trigger] v@[i].0@) && db_contents(*db)[v@[i].0@] == v@[i].1@
            &&& forall|k: Seq<u8>| db_contents(*db).contains_key(k) ==> exists|i: int| 0 <= i < v@.len() && #[trigger] v@[i].0@ == k
        },
{
    db.iter().map(|e| e.map(|(k, v)| (k.to_vec(), v.to_vec()))).collect()
}

/// The key under which the record of paste `id` is stored.
pub open spec fn key_of(id: Seq<char>) -> Seq<u8> {
    encode_utf8(id)
}

/// `bytes` is the stored form of a record whose content is `v`.
pub open spec fn holds_record(bytes: Seq<u8>, v: MetaView) -> bool {
    encode_record(v) == bytes
}

/// A record that a cleanup pass removes whatever the budget.
pub open spec fn view_reclaimable(v: MetaView, now: i64) -> bool {
    (v.expire_time matches Some(t) && now >= t) || v.size == 0
}

/// The keys of the records of `ids`.
pub open spec fn keys_of(ids: Seq<String>) -> Set<Seq<u8>> {
    Set::new(|k: Seq<u8>| exists|i: int| 0 <= i < ids.len() && key_of(ids[i]@) == k)
}

/// `entries` lists every record of `records` once, each id with its decoded record.
pub open spec fn lists_all(records: Map<Seq<u8>, Seq<u8>>, entries: Seq<(String, PasteMeta)>) -> bool {
    &&& forall|i: int| 0 <= i < entries.len() ==> records.contains_key(#[trigger] key_of(entries[i].0@))
        && holds_record(records[key_of(entries[i].0@)], entries[i].1@)
        && records[key_of(entries[i].0@)].len() <= usize::MAX
    &&& forall|k: Seq<u8>| records.contains_key(k) ==> exists|i: int| 0 <= i < entries.len() && #[trigger] key_of(entries[i].0@) == k
    &&& forall|i: int, j: int| 0 <= i < j < entries.len() ==> entries[i].0@ != entries[j].0@
}

/// The metadata store: one record per paste id, the single source of truth for which
/// ids are taken.
pub struct MetaStore {
    db: sled::Db,
}

fn id_key(id: &str) -> (r: Vec<u8>)
    ensures
        r@ == key_of(id@),
{
    id.as_bytes_vec()
}

impl MetaStore {
    /// The stored pairs, id bytes to record bytes.
    pub closed spec fn records(&self) -> Map<Seq<u8>, Seq<u8>> {
        db_contents(self.db)
    }

    /// Opens the store kept at `path`.
    pub fn open(path: &str) -> (r: Result<MetaStore, StoreError>) {
        match db_open(path) {
            Ok(db) => Ok(MetaStore { db }),
            Err(_) => Err(StoreError::Store),
        }
    }

    /// Opens a store at `path` that is removed again when dropped.
    pub fn open_temporary(path: &str) -> (r: Result<MetaStore, StoreError>) {
        match db_open_temporary(path) {
            Ok(db) => Ok(MetaStore { db }),
            Err(_) => Err(StoreError::Store),
        }
    }

    /// Whether a record exists for `id`.
    pub fn paste_exists(&self, id: &str) -> (r: Result<bool, StoreError>)
        ensures
            r matches Ok(b) ==> b == self.records().contains_key(key_of(id@)),
            r matches Err(e) ==> e == StoreError::Store,
    {
        let k = id_key(id);
        match db_get(&self.db, &k) {
            Ok(v) => Ok(v.is_some()),
            Err(_) => Err(StoreError::Store),
        }
    }

    /// The record of `id`.
    pub fn get_meta(&self, id: &str) -> (r: Result<PasteMeta, StoreError>)
        ensures
            r matches Ok(m) ==> self.records().contains_key(key_of(id@))
                && holds_record(self.records()[key_of(id@)], m@)
                && self.records()[key_of(id@)].len() <= usize::MAX,
            r matches Err(StoreError::NotFound) ==> !self.records().contains_key(key_of(id@)),
            r matches Err(e) ==> e != StoreError::Conflict,
    {
        let k = id_key(id);
        match db_get(&self.db, &k) {
            Ok(Some(bytes)) => match decode_meta(&bytes) {
                Some(m) => {
                    let stored_len: usize = bytes.len();
                    assert(stored_len == bytes@.len());
                    Ok(m)
                },
                None => Err(StoreError::Store),
            },
            Ok(None) => Err(StoreError::NotFound),
            Err(_) => Err(StoreError::Store),
        }
    }

    /// Replaces the whole record of `id` in one write.
    pub fn set_meta(&mut self, id: &str, meta: &PasteMeta) -> (r: Result<(), StoreError>)
        ensures
            r is Ok ==> final(self).records() == old(self).records().insert(key_of(id@), encode_record(meta@)),
            r matches Err(e) ==> e == StoreError::Store,
    {
        let k = id_key(id);
        let bytes = encode_meta(meta);
        match db_insert(&mut self.db, &k, bytes) {
            Ok(()) => Ok(()),
            Err(_) => Err(StoreError::Store),
        }
    }

    /// Reserves `id` for `key` at time `now`: fails with `Conflict` when the id is taken,
    /// and otherwise writes an empty record in the same atomic step.
    pub fn new_at(&mut self, id: &str, key: &str, now: i64) -> (r: Result<(), StoreError>)
        ensures
            r is Ok ==> !old(self).records().contains_key(key_of(id@))
                && final(self).records() == old(self).records().insert(key_of(id@), encode_record(provisioned(key@, now))),
            r matches Err(StoreError::Conflict) ==> old(self).records().contains_key(key_of(id@))
                && final(self).records() == old(self).records(),
            r matches Err(e) ==> e != StoreError::NotFound,
    {
        let k = id_key(id);
        let meta = PasteMeta::provisioned(key, now);
        let bytes = encode_meta(&meta);
        match db_insert_new(&mut self.db, &k, bytes) {
            Ok(true) => Ok(()),
            Ok(false) => Err(StoreError::Conflict),
            Err(_) => Err(StoreError::Store),
        }
    }

    /// Records `len` as the content size of `id`, keeping the rest of its record.
    pub fn update_size(&mut self, id: &str, len: u64) -> (r: Result<(), StoreError>)
        ensures
            r is Ok ==> exists|v: MetaView| {
                &&& old(self).records().contains_key(key_of(id@))
                &&& #[trigger] holds_record(old(self).records()[key_of(id@)], v)
                &&& final(self).records() == old(self).records().insert(key_of(id@), encode_record(MetaView { size: len, ..v }))
            },
            r matches Err(StoreError::NotFound) ==> !old(self).records().contains_key(key_of(id@))
                && final(self).records() == old(self).records(),
            r matches Err(e) ==> e != StoreError::Conflict,
    {
        let mut meta = match self.get_meta(id) {
            Ok(m) => m,
            Err(e) => {
                return Err(e);
            },
        };
        let ghost v = meta@;
        meta.size = len;
        assert(meta@ == MetaView { size: len, ..v });
        self.set_meta(id, &meta)
    }

    /// Removes the record of `id`; fails with `NotFound` when there is none.
    pub fn delete(&mut self, id: &str) -> (r: Result<(), StoreError>)
        ensures
            r is Ok ==> old(self).records().contains_key(key_of(id@))
                && final(self).records() == old(self).records().remove(key_of(id@)),
            r matches Err(StoreError::NotFound) ==> !old(self).records().contains_key(key_of(id@))
                && final(self).records() == old(self).records(),
            r matches Err(e) ==> e != StoreError::Conflict,
    {
        let k = id_key(id);
        match db_remove(&mut self.db, &k) {
            Ok(true) => Ok(()),
            Ok(false) => {
                assert(old(self).records().remove(key_of(id@)) =~= old(self).records());
                Err(StoreError::NotFound)
            },
            Err(_) => Err(StoreError::Store),
        }
    }

    /// Whether `key` is the key recorded for `id`; `NotFound` when `id` has no record.
    pub fn validate(&self, id: &str, key: &str) -> (r: Result<bool, StoreError>)
        ensures
            r matches Ok(b) ==> self.records().contains_key(key_of(id@))
                && self.records()[key_of(id@)].len() <= usize::MAX && exists|v: MetaView|
                #[trigger] holds_record(self.records()[key_of(id@)], v) && b == (key@ == v.key),
            r matches Err(StoreError::NotFound) ==> !self.records().contains_key(key_of(id@)),
            r matches Err(e) ==> e != StoreError::Conflict,
    {
        match self.get_meta(id) {
            Ok(m) => {
                let b = m.validate(key);
                assert(holds_record(self.records()[key_of(id@)], m@));
                Ok(b)
            },
            Err(e) => Err(e),
        }
    }

    /// Every id with its record.
    pub fn get_all_meta(&self) -> (r: Result<Vec<(String, PasteMeta)>, StoreError>)
        ensures
            r matches Ok(v) ==> lists_all(self.records(), v@),
            r matches Err(e) ==> e == StoreError::Store,
    {
        let pairs = match db_entries(&self.db) {
            Ok(p) => p,
            Err(_) => {
                return Err(StoreError::Store);
            },
        };
        let ghost recs = self.records();
        let mut out: Vec<(String, PasteMeta)> = Vec::new();
        let mut i: usize = 0;
        while i < pairs.len()
            invariant
                recs == self.records(),
                0 <= i <= pairs@.len(),
                out@.len() == i,
                forall|a: int, b: int| 0 <= a < b < pairs@.len() ==> pairs@[a].0@ != pairs@[b].0@,
                forall|a: int| 0 <= a < pairs@.len()
                    ==> recs.contains_key(#[trigger] pairs@[a].0@) && recs[pairs@[a].0@] == pairs@[a].1@,
                forall|a: int| 0 <= a < i ==> #[trigger] key_of(out@[a].0@) == pairs@[a].0@
                    && holds_record(pairs@[a].1@, out@[a].1@) && pairs@[a].1@.len() <= usize::MAX,
            decreases pairs@.len() - i,
        {
            let kb = pairs[i].0.clone();
            let ghost kv = pairs@[i as int].0@;
            let id = match string_from_utf8(kb) {
                Some(s) => s,
                None => {
                    return Err(StoreError::Store);
                },
            };
            let record_len: usize = pairs[i].1.len();
            assert(record_len == pairs@[i as int].1@.len());
            let meta = match decode_meta(&pairs[i].1) {
                Some(m) => m,
                None => {
                    return Err(StoreError::Store);
                },
            };
            proof {
                decode_utf8_encode_utf8(kv);
            }
            out.push((id, meta));
            i = i + 1;
        }
        proof {
            assert forall|a: int| 0 <= a < out@.len() implies recs.contains_key(#[trigger] key_of(out@[a].0@))
                && holds_record(recs[key_of(out@[a].0@)], out@[a].1@)
                && recs[key_of(out@[a].0@)].len() <= usize::MAX by {
                assert(key_of(out@[a].0@) == pairs@[a].0@);
                assert(pairs@[a].1@.len() <= usize::MAX);
            }
            assert forall|k: Seq<u8>| recs.contains_key(k) implies exists|a: int| 0 <= a < out@.len() && #[trigger] key_of(out@[a].0@) == k by {
                let a = choose|a: int| 0 <= a < pairs@.len() && #[trigger] pairs@[a].0@ == k;
                assert(key_of(out@[a].0@) == pairs@[a].0@);
            }
            assert forall|a: int, b: int| 0 <= a < b < out@.len() implies out@[a].0@ != out@[b].0@ by {
                assert(key_of(out@[a].0@) == pairs@[a].0@);
                assert(key_of(out@[b].0@) == pairs@[b].0@);
            }
        }
        Ok(out)
    }

    /// One cleanup pass at time `now`: removes the records that have expired or hold no
    /// content, and under `budget` evicts others highest priority first until the rest
    /// fit. Returns the ids removed.
    pub fn cleanup(&mut self, now: i64, budget: Option<u64>) -> (r: Result<Vec<String>, StoreError>)
        ensures
            r matches Ok(ids) ==> {
                &&& final(self).records() == old(self).records().remove_keys(keys_of(ids@))
                &&& forall|k: Seq<u8>, v: MetaView|
                    old(self).records().contains_key(k) && #[trigger] holds_record(old(self).records()[k], v)
                        && view_reclaimable(v, now) ==> keys_of(ids@).contains(k)
                &&& forall|i: int| 0 <= i < ids@.len() ==> old(self).records().contains_key(#[trigger] key_of(ids@[i]@))
                &&& budget is None ==> forall|i: int, v: MetaView| 0 <= i < ids@.len()
                    && #[trigger] holds_record(old(self).records()[key_of(ids@[i]@)], v) ==> view_reclaimable(v, now)
                &&& forall|i: int, j: int| 0 <= i < j < ids@.len() ==> ids@[i]@ != ids@[j]@
                &&& exists|e: Seq<(String, PasteMeta)>, ev: Seq<usize>| {
                    &&& lists_all(old(self).records(), e)
                    &&& ids@.map_values(|s: String| s@) == (reclaimed(e, now) + ev).map_values(|i: usize| e[i as int].0@)
                    &&& budget is None ==> ev.len() == 0
                    &&& budget matches Some(b) ==> greedy_eviction(e, now, b, ev)
                }
            },
            r matches Err(e) ==> e == StoreError::Store,
    {
        let entries = match self.get_all_meta() {
            Ok(v) => v,
            Err(e) => {
                return Err(e);
            },
        };
        let ghost recs = old(self).records();
        let n_entries: usize = entries.len();
        let plan = plan_cleanup(&entries, now, budget);
        let mut targets: Vec<usize> = plan.reclaimed;
        let mut evicted = plan.evicted;
        let ghost reclaimed_part = targets@;
        let ghost evicted_part = evicted@;
        targets.append(&mut evicted);
        let ghost tv = targets@;
        proof {
            assert(tv =~= reclaimed_part + evicted_part);
            assert forall|q: int| 0 <= q < tv.len() implies #[trigger] tv[q] < entries@.len() by {
                if q < reclaimed_part.len() {
                    assert(reclaimed_part[q] == tv[q]);
                    assert(reclaimed_part.contains(tv[q]));
                    assert(reclaimed_part == crate::policy::reclaimed(entries@, now));
                    crate::policy::lemma_reclaimed_members(entries@, now, q);
                } else {
                    assert(tv[q] == evicted_part[q - reclaimed_part.len()]);
                    assert(crate::policy::is_candidate(entries@, now, evicted_part[q - reclaimed_part.len()] as int));
                }
            }
        }
        let mut ids: Vec<String> = Vec::new();
        let mut j: usize = 0;
        while j < targets.len()
            invariant
                lists_all(recs, entries@),
                tv == targets@,
                forall|q: int| 0 <= q < tv.len() ==> #[trigger] tv[q] < entries@.len(),
                0 <= j <= tv.len(),
                ids@.len() == j,
                forall|q: int| 0 <= q < j ==> #[trigger] ids@[q]@ == entries@[tv[q] as int].0@,
                self.records() == recs.remove_keys(keys_of(ids@)),
            decreases tv.len() - j,
        {
            let id = entries[targets[j]].0.clone();
            let ghost before = self.records();
            let ghost old_ids = ids@;
            match self.delete(id.as_str()) {
                Ok(()) => {},
                Err(StoreError::NotFound) => {},
                Err(e) => {
                    return Err(e);
                },
            }
            ids.push(id);
            proof {
                assert(keys_of(ids@) =~= keys_of(old_ids).insert(key_of(id@))) by {
                    assert forall|k: Seq<u8>| keys_of(ids@).contains(k) implies keys_of(old_ids).insert(key_of(id@)).contains(k) by {
                        let w = choose|w: int| 0 <= w < ids@.len() && key_of(ids@[w]@) == k;
                        if w < old_ids.len() {
                            assert(ids@[w] == old_ids[w]);
                        }
                    }
                    assert forall|k: Seq<u8>| keys_of(old_ids).insert(key_of(id@)).contains(k) implies keys_of(ids@).contains(k) by {
                        if k == key_of(id@) {
                            assert(ids@[old_ids.len() as int] == id);
                        } else {
                            let w = choose|w: int| 0 <= w < old_ids.len() && key_of(old_ids[w]@) == k;
                            assert(ids@[w] == old_ids[w]);
                        }
                    }
                }
                assert(self.records() =~= recs.remove_keys(keys_of(ids@)));
            }
            j = j + 1;
        }
        proof {
            assert forall|k: Seq<u8>, v: MetaView|
                recs.contains_key(k) && #[trigger] holds_record(recs[k], v) && view_reclaimable(v, now)
                implies keys_of(ids@).contains(k) by {
                let a = choose|a: int| 0 <= a < entries@.len() && #[trigger] key_of(entries@[a].0@) == k;
                lemma_record_injective(entries@[a].1@, v);
                lemma_reclaimed_exactly(entries@, now, a);
                let q = choose|q: int| 0 <= q < reclaimed_part.len() && reclaimed_part[q] == a as usize;
                assert(tv[q] == reclaimed_part[q]);
                assert(key_of(ids@[q]@) == k);
            }
            assert forall|i: int| 0 <= i < ids@.len() implies recs.contains_key(#[trigger] key_of(ids@[i]@)) by {
                assert(ids@[i]@ == entries@[tv[i] as int].0@);
            }
            if budget is None {
                assert forall|i: int, v: MetaView| 0 <= i < ids@.len()
                    && #[trigger] holds_record(recs[key_of(ids@[i]@)], v) implies view_reclaimable(v, now) by {
                    let a = tv[i] as int;
                    assert(ids@[i]@ == entries@[a].0@);
                    lemma_record_injective(entries@[a].1@, v);
                    assert(i < reclaimed_part.len());
                    assert(reclaimed_part[i] == tv[i]);
                    assert(reclaimed_part.contains(a as usize));
                    lemma_reclaimed_exactly(entries@, now, a);
                }
            }
        }
        proof {
            let e = entries@;
            assert(ids@.map_values(|s: String| s@) =~= (reclaimed(e, now) + evicted_part).map_values(|i: usize| e[i as int].0@));
            lemma_reclaimed_distinct(e, now);
            assert forall|a: int, b: int| 0 <= a < b < ids@.len() implies ids@[a]@ != ids@[b]@ by {
                assert(ids@[a]@ == e[tv[a] as int].0@);
                assert(ids@[b]@ == e[tv[b] as int].0@);
                if tv[a] == tv[b] {
                    if b < reclaimed_part.len() {
                        assert(reclaimed_part[a] == tv[a] && reclaimed_part[b] == tv[b]);
                    } else if a >= reclaimed_part.len() {
                        assert(evicted_part[a - reclaimed_part.len()] == tv[a]);
                        assert(evicted_part[b - reclaimed_part.len()] == tv[b]);
                    } else {
                        assert(reclaimed_part[a] == tv[a]);
                        assert(reclaimed_part.contains(tv[a]));
                        lemma_reclaimed_exactly(e, now, tv[a] as int);
                        assert(evicted_part[b - reclaimed_part.len()] == tv[b]);
                        assert(is_candidate(e, now, evicted_part[b - reclaimed_part.len()] as int));
                    }
                }
            }
        }
        Ok(ids)
    }
}

} // verus!
