use vstd::prelude::*;

verus! {

/// Relies on chrono's `Utc::now`: the current time in seconds since the Unix epoch.
#[verifier::external_body]
pub fn now_seconds() -> (r: i64) {
    chrono::Utc::now().timestamp()
}

/// The expiry time `minutes` after `now`; none for a non-positive count or a time out
/// of range.
pub fn expire_time_after(now: i64, minutes: i64) -> (r: Option<i64>)
    ensures
        r is Some <==> (minutes > 0 && i64::MIN <= now + 60 * minutes <= i64::MAX),
        r matches Some(t) ==> t == now + 60 * minutes,
{
    if minutes <= 0 {
        return None;
    }
    let t: i128 = now as i128 + 60 * (minutes as i128);
    if t < i64::MIN as i128 || t > i64::MAX as i128 {
        return None;
    }
    Some(t as i64)
}

} // verus!
