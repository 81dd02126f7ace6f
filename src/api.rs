use vstd::prelude::*;
use vstd::string::*;
use crate::codec::{encode_record, lemma_record_injective};
use crate::error::ApiError;
use crate::meta::{name_view, provisioned, MetaView, PasteMeta};
use crate::misc::{split, split_at_char};
use crate::store::{holds_record, key_of, MetaStore};

verus! {

/// Names at least this many bytes long are not kept.
pub const MAX_NAME_BYTES: usize = 8000;

/// Seconds after which a read records a new access time.
pub const ATIME_RESOLUTION: i64 = 3600;

/// The record of a freshly written paste: its size set, then the expiry and the name
/// given at creation applied (a name only when shorter than the limit).
pub open spec fn finished(v: MetaView, len: u64, expire: Option<i64>, name: Option<Seq<char>>) -> MetaView {
    MetaView {
        size: len,
        expire_time: if expire is Some { expire } else { v.expire_time },
        name: match name {
            Some(n) => if vstd::utf8::encode_utf8(n).len() < MAX_NAME_BYTES { Some(n) } else { v.name },
            None => v.name,
        },
        ..v
    }
}

/// Completes the creation of paste `id` once `len` bytes of content are written: an
/// empty paste is removed again and refused, otherwise its size, expiry and name are
/// recorded.
pub fn finish_new_paste(
    store: &mut MetaStore,
    id: &str,
    len: u64,
    expire: Option<i64>,
    name: Option<String>,
) -> (r: Result<(), ApiError>)
    ensures
        r is Ok ==> len > 0 && exists|v: MetaView| {
            &&& old(store).records().contains_key(key_of(id@))
            &&& #[trigger] holds_record(old(store).records()[key_of(id@)], v)
            &&& final(store).records() == old(store).records().insert(
                key_of(id@),
                encode_record(finished(v, len, expire, name_view(name))),
            )
        },
        r matches Err(ApiError::BadRequest(m)) && m@ == "Cannot create paste with no content."@
            ==> len == 0 && !final(store).records().contains_key(key_of(id@)),
        r matches Err(ApiError::NotFound) ==> !old(store).records().contains_key(key_of(id@)),
        len == 0 ==> r is Err,
        old(store).records().contains_key(key_of(id@)) && len > 0 ==> r is Ok || r matches Err(ApiError::Unknown(_)),
        old(store).records().contains_key(key_of(id@)) && len == 0 ==> (r matches Err(ApiError::BadRequest(m))
            && m@ == "Cannot create paste with no content."@ && !final(store).records().contains_key(key_of(id@)))
            || r matches Err(ApiError::Unknown(_)),
{
    match store.update_size(id, len) {
        Ok(()) => {},
        Err(e) => {
            return Err(ApiError::from_store(e));
        },
    }
    let ghost after_size = store.records();
    let mut meta = match store.get_meta(id) {
        Ok(m) => m,
        Err(e) => {
            return Err(ApiError::from_store(e));
        },
    };
    let ghost v0 = choose|v: MetaView| #[trigger] holds_record(old(store).records()[key_of(id@)], v)
        && after_size == old(store).records().insert(key_of(id@), encode_record(MetaView { size: len, ..v }));
    proof {
        assert(encode_record(meta@) == encode_record(MetaView { size: len, ..v0 }));
        crate::codec::lemma_record_injective(meta@, MetaView { size: len, ..v0 });
        reveal_strlit("Cannot create paste with no content.");
        reveal_strlit("Paste already exists");
    }
    if meta.size == 0 {
        return match store.delete(id) {
            Ok(()) => Err(ApiError::BadRequest("Cannot create paste with no content.".to_owned())),
            Err(e) => Err(ApiError::from_store(e)),
        };
    }
    if let Some(t) = expire {
        meta.expire_time = Some(t);
    }
    let ghost given = name_view(name);
    match name {
        Some(n) => {
            let nb = n.as_str().as_bytes().len();
            assert(nb == vstd::utf8::encode_utf8(n@).len());
            if nb < MAX_NAME_BYTES {
                meta.name = Some(n);
            }
        },
        None => {},
    }
    assert(meta@.name == finished(v0, len, expire, given).name);
    assert(meta@.expire_time == finished(v0, len, expire, given).expire_time);
    assert(meta@ == finished(v0, len, expire, given));
    let r = store.set_meta(id, &meta);
    match r {
        Ok(()) => {
            assert(store.records() =~= old(store).records().insert(key_of(id@), encode_record(meta@)));
            Ok(())
        },
        Err(e) => Err(ApiError::from_store(e)),
    }
}

/// Checks that `key` opens paste `id`: `NotFound` when it has no record, `Forbidden`
/// when the key differs from the recorded one.
pub fn authorize(store: &MetaStore, id: &str, key: &str) -> (r: Result<(), ApiError>)
    ensures
        r is Ok ==> store.records().contains_key(key_of(id@)) && exists|v: MetaView|
            #[trigger] holds_record(store.records()[key_of(id@)], v) && v.key == key@,
        r matches Err(ApiError::Forbidden) ==> store.records().contains_key(key_of(id@)) && exists|v: MetaView|
            #[trigger] holds_record(store.records()[key_of(id@)], v) && v.key != key@,
        r matches Err(ApiError::NotFound) ==> !store.records().contains_key(key_of(id@)),
        !store.records().contains_key(key_of(id@)) ==> r matches Err(ApiError::NotFound) || r matches Err(ApiError::Unknown(_)),
        (exists|v: MetaView| #[trigger] holds_record(store.records()[key_of(id@)], v) && v.key == key@)
            && store.records().contains_key(key_of(id@)) ==> r is Ok || r matches Err(ApiError::Unknown(_)),
        (exists|v: MetaView| #[trigger] holds_record(store.records()[key_of(id@)], v) && v.key != key@)
            && store.records().contains_key(key_of(id@)) ==> r matches Err(ApiError::Forbidden) || r matches Err(ApiError::Unknown(_)),
{
    let res = store.validate(id, key);
    proof {
        if res is Ok {
            let bytes = store.records()[key_of(id@)];
            let w = choose|w: MetaView| #[trigger] holds_record(bytes, w) && res.unwrap() == (key@ == w.key);
            assert forall|v: MetaView| #[trigger] holds_record(bytes, v) implies v == w by {
                lemma_record_injective(v, w);
            }
        }
    }
    match res {
        Ok(true) => Ok(()),
        Ok(false) => Err(ApiError::Forbidden),
        Err(e) => Err(ApiError::from_store(e)),
    }
}

/// Deletes paste `id` when `key` opens it; leaves the store as it was otherwise.
pub fn delete_with_key(store: &mut MetaStore, id: &str, key: &str) -> (r: Result<(), ApiError>)
    ensures
        r is Ok ==> exists|v: MetaView| #[trigger] holds_record(old(store).records()[key_of(id@)], v) && v.key == key@
            && old(store).records().contains_key(key_of(id@))
            && final(store).records() == old(store).records().remove(key_of(id@)),
        r matches Err(ApiError::Forbidden) ==> final(store).records() == old(store).records()
            && exists|v: MetaView| #[trigger] holds_record(old(store).records()[key_of(id@)], v) && v.key != key@,
        r matches Err(ApiError::NotFound) ==> !old(store).records().contains_key(key_of(id@))
            && final(store).records() == old(store).records(),
        !old(store).records().contains_key(key_of(id@)) ==> r matches Err(ApiError::NotFound) || r matches Err(ApiError::Unknown(_)),
        (exists|v: MetaView| #[trigger] holds_record(old(store).records()[key_of(id@)], v) && v.key == key@)
            && old(store).records().contains_key(key_of(id@)) ==> r is Ok || r matches Err(ApiError::Unknown(_)),
        (exists|v: MetaView| #[trigger] holds_record(old(store).records()[key_of(id@)], v) && v.key != key@)
            && old(store).records().contains_key(key_of(id@)) ==> r matches Err(ApiError::Forbidden) || r matches Err(ApiError::Unknown(_)),
{
    match authorize(store, id, key) {
        Ok(()) => {},
        Err(e) => {
            return Err(e);
        },
    }
    match store.delete(id) {
        Ok(()) => Ok(()),
        Err(e) => Err(ApiError::from_store(e)),
    }
}

/// Whether a read at `now` should record a new access time.
pub open spec fn atime_due(atime: Option<i64>, now: i64) -> bool {
    match atime {
        Some(t) => now - t > ATIME_RESOLUTION,
        None => true,
    }
}

/// Records `now` as the access time when the last one is missing or older than the
/// resolution; returns whether it changed.
pub fn refresh_atime(meta: &mut PasteMeta, now: i64) -> (r: bool)
    ensures
        r == atime_due(old(meta).atime, now),
        r ==> final(meta)@ == (MetaView { atime: Some(now), ..old(meta)@ }),
        !r ==> final(meta)@ == old(meta)@,
{
    let due = match meta.atime {
        Some(t) => (now as i128) - (t as i128) > ATIME_RESOLUTION as i128,
        None => true,
    };
    if due {
        meta.atime = Some(now);
    }
    due
}

/// The extension of a file name: what follows its last dot, or the whole name.
pub fn file_extension(name: &str) -> (r: String)
    ensures
        r@ == split(name@, '.').last(),
{
    let sections = split_at_char(name, '.');
    proof {
        crate::misc::lemma_split_len(name@, '.');
    }
    let last = sections.len() - 1;
    assert(sections@.map_values(|p: String| p@)[last as int] == sections@[last as int]@);
    sections[last].clone()
}

proof fn lemma_creations_keep(states: Seq<Map<Seq<u8>, Seq<u8>>>, ids: Seq<Seq<char>>, records: Seq<Seq<u8>>, i: int, j: int)
    requires
        states.len() == ids.len() + 1,
        records.len() == ids.len(),
        forall|n: int| 0 <= n < ids.len() ==> #[trigger] states[n + 1] == states[n].insert(key_of(ids[n]), records[n]),
        0 <= i < j < states.len(),
    ensures
        states[j].contains_key(key_of(ids[i])),
    decreases j - i,
{
    if j > i + 1 {
        lemma_creations_keep(states, ids, records, i, j - 1);
        let n = j - 1;
        assert(states[n + 1] == states[n].insert(key_of(ids[n]), records[n]));
    } else {
        assert(states[i + 1] == states[i].insert(key_of(ids[i]), records[i]));
    }
}

/// Uniqueness: in any run of successful creations, each of which finds its id free and
/// adds its record, no two created ids are equal.
pub proof fn lemma_created_ids_distinct(
    states: Seq<Map<Seq<u8>, Seq<u8>>>,
    ids: Seq<Seq<char>>,
    records: Seq<Seq<u8>>,
    i: int,
    j: int,
)
    requires
        states.len() == ids.len() + 1,
        records.len() == ids.len(),
        forall|n: int| 0 <= n < ids.len() ==> !(#[trigger] states[n]).contains_key(key_of(ids[n])),
        forall|n: int| 0 <= n < ids.len() ==> #[trigger] states[n + 1] == states[n].insert(key_of(ids[n]), records[n]),
        0 <= i < j < ids.len(),
    ensures
        ids[i] != ids[j],
{
    lemma_creations_keep(states, ids, records, i, j);
    assert(!states[j].contains_key(key_of(ids[j])));
}

/// Size: right after a size update the record read back carries exactly that size.
pub proof fn lemma_size_after_update(records: Map<Seq<u8>, Seq<u8>>, id: Seq<char>, v: MetaView, len: u64, m: MetaView)
    requires
        records.contains_key(key_of(id)),
        records[key_of(id)] == encode_record(MetaView { size: len, ..v }),
        holds_record(records[key_of(id)], m),
        records[key_of(id)].len() <= usize::MAX,
    ensures
        m.size == len,
        m == (MetaView { size: len, ..v }),
{
    crate::codec::lemma_record_injective(m, MetaView { size: len, ..v });
}

/// Keys: the record written at creation answers a key check with the key it was
/// created for, and nothing else.
pub proof fn lemma_key_from_creation(records: Map<Seq<u8>, Seq<u8>>, id: Seq<char>, key: Seq<char>, now: i64, v: MetaView, given: Seq<char>)
    requires
        records.contains_key(key_of(id)),
        records[key_of(id)] == encode_record(provisioned(key, now)),
        holds_record(records[key_of(id)], v),
        records[key_of(id)].len() <= usize::MAX,
    ensures
        (given == v.key) <==> (given == key),
{
    crate::codec::lemma_record_injective(v, provisioned(key, now));
}

} // verus!
