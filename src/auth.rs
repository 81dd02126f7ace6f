use vstd::prelude::*;
use blake2::{Blake2b, Digest};

verus! {

/// The stored form of an admin password: the lowercase hex BLAKE2b digest of its UTF-8 bytes.
pub uninterp spec fn blake2b_hex(p: Seq<char>) -> Seq<char>;

/// Relies on blake2's `Blake2b::digest`, written as lowercase hex: the result depends on
/// the password alone.
#[verifier::external_body]
fn password_hash(p: &str) -> (r: String)
    ensures
        r@ == blake2b_hex(p@),
{
    format!("{:x}", Blake2b::digest(p.as_bytes()))
}

/// `user` has an entry in `admins` (the first one counts) and it holds `hash`.
pub open spec fn admits(admins: Seq<(String, String)>, user: Seq<char>, hash: Seq<char>) -> bool {
    exists|i: int|
        0 <= i < admins.len() && admins[i].0@ == user && admins[i].1@ == hash
            && forall|j: int| 0 <= j < i ==> admins[j].0@ != user
}

/// Whether the admin list lets `user` in with a password whose stored form is `hash`.
pub fn admin_matches(admins: &Vec<(String, String)>, user: &str, hash: &str) -> (r: bool)
    ensures
        r == admits(admins@, user@, hash@),
{
    let u = user.to_owned();
    let h = hash.to_owned();
    let mut i: usize = 0;
    while i < admins.len()
        invariant
            0 <= i <= admins@.len(),
            u@ == user@,
            h@ == hash@,
            forall|j: int| 0 <= j < i ==> admins@[j].0@ != user@,
        decreases admins@.len() - i,
    {
        if admins[i].0 == u {
            let ok = admins[i].1 == h;
            proof {
                if !ok {
                    assert forall|k: int| 0 <= k < admins@.len() && admins@[k].0@ == user@ && admins@[k].1@ == hash@
                        implies !(forall|j: int| 0 <= j < k ==> admins@[j].0@ != user@) by {
                        if k > i {
                            assert(admins@[i as int].0@ == user@);
                        }
                    }
                }
            }
            return ok;
        }
        i = i + 1;
    }
    false
}

/// Whether `user` may enter the admin area with `password`; no password never does.
pub fn admin_allows(admins: &Vec<(String, String)>, user: &str, password: Option<&str>) -> (r: bool)
    ensures
        r == (password matches Some(p) && admits(admins@, user@, blake2b_hex(p@))),
{
    match password {
        Some(p) => {
            let hash = password_hash(p);
            admin_matches(admins, user, hash.as_str())
        },
        None => false,
    }
}

} // verus!
