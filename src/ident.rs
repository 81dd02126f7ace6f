use vstd::prelude::*;
use rand::Rng;
use crate::error::StoreError;
use crate::store::{key_of, MetaStore};
use crate::meta::provisioned;
use crate::codec::encode_record;

verus! {

/// Length of a paste id.
pub const ID_LEN: usize = 6;

/// Length of an owner key.
pub const KEY_LEN: usize = 10;

/// How many fresh ids creation tries before giving up.
pub const MAX_ATTEMPTS: usize = 64;

/// The characters that ids and keys are drawn from.
pub open spec fn charset() -> Seq<char> {
    "abcdefghijklmnopqrstuvwxyz123456"@
}

pub open spec fn from_charset(s: Seq<char>) -> bool {
    forall|i: int| 0 <= i < s.len() ==> charset().contains(#[trigger] s[i])
}

/// Relies on rand's `thread_rng().gen_range(0..bound)`: a number below `bound`, which
/// must be positive.
#[verifier::external_body]
fn random_below(bound: usize) -> (r: usize)
    requires
        bound > 0,
    ensures
        r < bound,
{
    rand::thread_rng().gen_range(0..bound)
}

/// A random string of `len` characters from the charset.
pub fn gen_random_chars(len: usize) -> (r: String)
    ensures
        r@.len() == len,
        from_charset(r@),
{
    let cs = "abcdefghijklmnopqrstuvwxyz123456";
    proof {
        reveal_strlit("abcdefghijklmnopqrstuvwxyz123456");
        assert(cs@.len() == 32);
    }
    let n = cs.unicode_len();
    let mut out = String::new();
    let mut i: usize = 0;
    while i < len
        invariant
            cs@ == charset(),
            n == 32,
            cs@.len() == 32,
            0 <= i <= len,
            out@.len() == i,
            from_charset(out@),
        decreases len - i,
    {
        let idx = random_below(n);
        let c = cs.substring_char(idx, idx + 1);
        let ghost before = out@;
        out.append(c);
        proof {
            assert(c@ =~= seq![charset()[idx as int]]);
            assert(charset().contains(charset()[idx as int]));
            assert forall|k: int| 0 <= k < out@.len() implies charset().contains(#[trigger] out@[k]) by {
                if k < before.len() {
                    assert(out@[k] == before[k]);
                } else {
                    assert(out@[k] == charset()[idx as int]);
                }
            }
        }
        i = i + 1;
    }
    out
}

impl MetaStore {
    /// Creates a paste for `key` at time `now` under a fresh random id, retrying when the
    /// drawn id is taken, and returns the id.
    pub fn create_paste(&mut self, key: &str, now: i64) -> (r: Result<String, StoreError>)
        ensures
            r matches Ok(id) ==> id@.len() == ID_LEN && from_charset(id@)
                && !old(self).records().contains_key(key_of(id@))
                && final(self).records() == old(self).records().insert(key_of(id@), encode_record(provisioned(key@, now))),
            r matches Err(e) ==> e != StoreError::NotFound && (e == StoreError::Conflict
                ==> final(self).records() == old(self).records()),
    {
        let mut attempt: usize = 0;
        while attempt < MAX_ATTEMPTS
            invariant
                self.records() == old(self).records(),
            decreases MAX_ATTEMPTS - attempt,
        {
            let id = gen_random_chars(ID_LEN);
            match self.new_at(id.as_str(), key, now) {
                Ok(()) => {
                    return Ok(id);
                },
                Err(StoreError::Conflict) => {},
                Err(e) => {
                    return Err(e);
                },
            }
            attempt = attempt + 1;
        }
        Err(StoreError::Conflict)
    }
}

} // verus!
