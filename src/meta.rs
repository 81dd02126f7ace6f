use vstd::prelude::*;

verus! {

/// Metadata kept for one paste. Times are seconds since the Unix epoch.
pub struct PasteMeta {
    pub create_time: i64,
    pub expire_time: Option<i64>,
    pub atime: Option<i64>,
    pub name: Option<String>,
    pub size: u64,
    pub key: String,
}

/// The mathematical content of a `PasteMeta`: strings seen as character sequences.
pub struct MetaView {
    pub create_time: i64,
    pub expire_time: Option<i64>,
    pub atime: Option<i64>,
    pub name: Option<Seq<char>>,
    pub size: u64,
    pub key: Seq<char>,
}

pub open spec fn name_view(n: Option<String>) -> Option<Seq<char>> {
    match n {
        Some(s) => Some(s@),
        None => None,
    }
}

impl View for PasteMeta {
    type V = MetaView;

    open spec fn view(&self) -> MetaView {
        MetaView {
            create_time: self.create_time,
            expire_time: self.expire_time,
            atime: self.atime,
            name: name_view(self.name),
            size: self.size,
            key: self.key@,
        }
    }
}

/// The record that reserves a fresh id: no content yet, no expiry, no name.
pub open spec fn provisioned(key: Seq<char>, now: i64) -> MetaView {
    MetaView { create_time: now, expire_time: None, atime: None, name: None, size: 0, key }
}

impl PasteMeta {
    /// The record written when an id is reserved for `key` at time `now`.
    pub fn provisioned(key: &str, now: i64) -> (r: PasteMeta)
        ensures
            r@ == provisioned(key@, now),
    {
        PasteMeta {
            create_time: now,
            expire_time: None,
            atime: None,
            name: None,
            size: 0,
            key: key.to_owned(),
        }
    }

    /// Whether `key` is the key recorded for this paste.
    pub fn validate(&self, key: &str) -> (r: bool)
        ensures
            r == (key@ == self.key@),
    {
        let k = key.to_owned();
        k == self.key
    }
}

} // verus!
