use vstd::prelude::*;
use crate::meta::PasteMeta;

verus! {

/// Content strictly smaller than this many bytes is returned buffered.
pub const MAX_STREAM_FILE_SIZE: u64 = 5242880;

/// Per-paste soft cap in bytes above which eviction pressure grows with size.
pub const SOFT_LIMIT: u64 = 10485760;

/// Returns whether content of `size` bytes is handed out buffered rather than streamed.
pub fn is_buffered(size: u64) -> (r: bool)
    ensures
        r == (size < MAX_STREAM_FILE_SIZE),
{
    size < MAX_STREAM_FILE_SIZE
}

pub open spec fn coefficient(size: u64, age: u64) -> int {
    if size > SOFT_LIMIT {
        age * (size - SOFT_LIMIT)
    } else {
        age as int
    }
}

/// Eviction priority of a paste of `size` bytes that is `oldness` seconds old.
pub fn calculate_delete_coefficient(size: u64, oldness: u64) -> (r: u128)
    ensures
        r == coefficient(size, oldness),
{
    if size > SOFT_LIMIT {
        let over: u64 = size - SOFT_LIMIT;
        assert((oldness as int) * (over as int) <= 0xffff_ffff_ffff_ffff * 0xffff_ffff_ffff_ffff)
            by (nonlinear_arith)
            requires
                oldness <= 0xffff_ffff_ffff_ffff,
                over <= 0xffff_ffff_ffff_ffff,
        ;
        (oldness as u128) * (over as u128)
    } else {
        oldness as u128
    }
}

/// Seconds from `from` to `to`, or zero when `to` is not later.
pub open spec fn age(from: i64, to: i64) -> u64 {
    if to > from {
        (to - from) as u64
    } else {
        0
    }
}

pub fn age_seconds(from: i64, to: i64) -> (r: u64)
    ensures
        r == age(from, to),
{
    if to > from {
        ((to as i128) - (from as i128)) as u64
    } else {
        0
    }
}

pub open spec fn is_expired(m: PasteMeta, now: i64) -> bool {
    match m.expire_time {
        Some(t) => now >= t,
        None => false,
    }
}

/// A record that cleanup removes whatever the budget: expired, or never given content.
pub open spec fn is_reclaimable(m: PasteMeta, now: i64) -> bool {
    is_expired(m, now) || m.size == 0
}

pub open spec fn priority(m: PasteMeta, now: i64) -> int {
    coefficient(m.size, age(m.create_time, now))
}

/// The indices, in order, of the entries among the first `n` that cleanup reclaims.
pub open spec fn reclaimed_upto(e: Seq<(String, PasteMeta)>, now: i64, n: int) -> Seq<usize>
    decreases n,
{
    if n <= 0 {
        Seq::empty()
    } else if is_reclaimable(e[n - 1].1, now) {
        reclaimed_upto(e, now, n - 1).push((n - 1) as usize)
    } else {
        reclaimed_upto(e, now, n - 1)
    }
}

pub open spec fn reclaimed(e: Seq<(String, PasteMeta)>, now: i64) -> Seq<usize> {
    reclaimed_upto(e, now, e.len() as int)
}

/// Total size of the eviction candidates among the first `n` entries that `r` does not hold.
pub open spec fn kept_upto(e: Seq<(String, PasteMeta)>, now: i64, r: Seq<usize>, n: int) -> int
    decreases n,
{
    if n <= 0 {
        0
    } else if !is_reclaimable(e[n - 1].1, now) && !r.contains((n - 1) as usize) {
        kept_upto(e, now, r, n - 1) + e[n - 1].1.size
    } else {
        kept_upto(e, now, r, n - 1)
    }
}

/// Total size of the eviction candidates that survive the evictions `r`.
pub open spec fn kept(e: Seq<(String, PasteMeta)>, now: i64, r: Seq<usize>) -> int {
    kept_upto(e, now, r, e.len() as int)
}

pub open spec fn is_candidate(e: Seq<(String, PasteMeta)>, now: i64, i: int) -> bool {
    0 <= i < e.len() && !is_reclaimable(e[i].1, now)
}

/// `r` is an eviction order that cleanup may take under `budget`: each step removes a
/// candidate of highest priority among those left, steps are only taken while the
/// candidates left exceed the budget, and it stops once they fit or none is left.
pub open spec fn greedy_eviction(e: Seq<(String, PasteMeta)>, now: i64, budget: u64, r: Seq<usize>) -> bool {
    &&& forall|j: int| 0 <= j < r.len() ==> is_candidate(e, now, r[j] as int)
    &&& forall|j: int, k: int| 0 <= j < k < r.len() ==> r[j] != r[k]
    &&& forall|j: int, i: int|
        0 <= j < r.len() && is_candidate(e, now, i) && !r.take(j).contains(i as usize)
            ==> priority(e[i].1, now) <= priority(e[r[j] as int].1, now)
    &&& forall|j: int| 0 <= j < r.len() ==> kept(e, now, r.take(j)) > budget
    &&& kept(e, now, r) <= budget || forall|i: int| is_candidate(e, now, i) ==> r.contains(i as usize)
}

/// Which records a cleanup pass removes: `reclaimed` holds the expired and empty ones,
/// `evicted` the ones taken for the size budget, both as indices into the scanned list.
pub struct CleanupPlan {
    pub reclaimed: Vec<usize>,
    pub evicted: Vec<usize>,
}

proof fn lemma_kept_bound(e: Seq<(String, PasteMeta)>, now: i64, r: Seq<usize>, n: int)
    requires
        0 <= n <= e.len(),
    ensures
        0 <= kept_upto(e, now, r, n) <= n * 0xffff_ffff_ffff_ffff,
    decreases n,
{
    if n > 0 {
        lemma_kept_bound(e, now, r, n - 1);
    }
}

proof fn lemma_kept_push(e: Seq<(String, PasteMeta)>, now: i64, r: Seq<usize>, b: usize, n: int)
    requires
        0 <= n <= e.len() <= usize::MAX,
        is_candidate(e, now, b as int),
        !r.contains(b),
    ensures
        kept_upto(e, now, r.push(b), n) == kept_upto(e, now, r, n) - (if (b as int) < n {
            e[b as int].1.size as int
        } else {
            0
        }),
    decreases n,
{
    if n > 0 {
        lemma_kept_push(e, now, r, b, n - 1);
        let rb = r.push(b);
        assert(rb.contains((n - 1) as usize) == (r.contains((n - 1) as usize) || b == (n - 1) as usize)) by {
            if r.contains((n - 1) as usize) {
                let k = choose|k: int| 0 <= k < r.len() && r[k] == (n - 1) as usize;
                assert(rb[k] == r[k]);
            }
            if rb.contains((n - 1) as usize) {
                let k = choose|k: int| 0 <= k < rb.len() && rb[k] == (n - 1) as usize;
                if k < r.len() {
                    assert(r[k] == rb[k]);
                }
            }
            if b == (n - 1) as usize {
                assert(rb[r.len() as int] == b);
            }
        }
        if b == (n - 1) as usize {
            assert(!is_reclaimable(e[n - 1].1, now));
        }
    }
}

proof fn lemma_kept_zero(e: Seq<(String, PasteMeta)>, now: i64, r: Seq<usize>, n: int)
    requires
        0 <= n <= e.len(),
        forall|i: int| 0 <= i < n && is_candidate(e, now, i) ==> r.contains(i as usize),
    ensures
        kept_upto(e, now, r, n) == 0,
    decreases n,
{
    if n > 0 {
        lemma_kept_zero(e, now, r, n - 1);
        if !is_reclaimable(e[n - 1].1, now) {
            assert(is_candidate(e, now, n - 1));
        }
    }
}

/// Picks the evictions for `budget` greedily, highest priority first.
pub fn select_evictions(entries: &Vec<(String, PasteMeta)>, now: i64, budget: u64) -> (r: Vec<usize>)
    ensures
        greedy_eviction(entries@, now, budget, r@),
{
    let ghost e = entries@;
    let n = entries.len();
    let mut prio: Vec<u128> = Vec::new();
    let mut chosen: Vec<bool> = Vec::new();
    let mut total: u128 = 0;
    let mut i: usize = 0;
    while i < n
        invariant
            n == e.len(),
            e == entries@,
            0 <= i <= n,
            prio@.len() == i,
            chosen@.len() == i,
            forall|k: int| 0 <= k < i ==> prio@[k] == priority(e[k].1, now),
            forall|k: int| 0 <= k < i ==> !chosen@[k],
            total == kept_upto(e, now, Seq::empty(), i as int),
        decreases n - i,
    {
        let m = &entries[i].1;
        proof {
            lemma_kept_bound(e, now, Seq::empty(), i as int);
            assert(i * 0xffff_ffff_ffff_ffff <= 0xffff_ffff_ffff_ffff * 0xffff_ffff_ffff_ffff)
                by (nonlinear_arith)
                requires
                    i <= 0xffff_ffff_ffff_ffff,
            ;
        }
        let reclaim = match m.expire_time {
            Some(t) => now >= t,
            None => false,
        } || m.size == 0;
        if !reclaim {
            total = total + m.size as u128;
        }
        let a = age_seconds(m.create_time, now);
        prio.push(calculate_delete_coefficient(m.size, a));
        chosen.push(false);
        i = i + 1;
    }
    let mut out: Vec<usize> = Vec::new();
    assert(out@.take(0) =~= out@);
    while total > budget as u128
        invariant
            n == e.len(),
            e == entries@,
            prio@.len() == n,
            chosen@.len() == n,
            forall|k: int| 0 <= k < n ==> prio@[k] == priority(e[k].1, now),
            forall|k: int| 0 <= k < n ==> (chosen@[k] <==> out@.contains(k as usize)),
            total == kept(e, now, out@),
            forall|j: int| 0 <= j < out@.len() ==> is_candidate(e, now, out@[j] as int),
            forall|j: int, k: int| 0 <= j < k < out@.len() ==> out@[j] != out@[k],
            forall|j: int, x: int|
                0 <= j < out@.len() && is_candidate(e, now, x) && !out@.take(j).contains(x as usize)
                    ==> priority(e[x].1, now) <= priority(e[out@[j] as int].1, now),
            forall|j: int| 0 <= j < out@.len() ==> kept(e, now, out@.take(j)) > budget,
        ensures
            kept(e, now, out@) <= budget || forall|i: int| is_candidate(e, now, i) ==> out@.contains(i as usize),
        decreases total,
    {
        let mut best: usize = n;
        let mut k: usize = 0;
        while k < n
            invariant
                n == e.len(),
                e == entries@,
                prio@.len() == n,
                chosen@.len() == n,
                forall|q: int| 0 <= q < n ==> prio@[q] == priority(e[q].1, now),
                0 <= k <= n,
                best == n || (best < k && is_candidate(e, now, best as int) && !chosen@[best as int]),
                forall|q: int| 0 <= q < k && is_candidate(e, now, q) && !chosen@[q]
                    ==> best < n && prio@[q] <= prio@[best as int],
            decreases n - k,
        {
            let m = &entries[k].1;
            let reclaim = match m.expire_time {
                Some(t) => now >= t,
                None => false,
            } || m.size == 0;
            if !reclaim && !chosen[k] {
                if best == n || prio[k] > prio[best] {
                    best = k;
                }
            }
            k = k + 1;
        }
        if best == n {
            proof {
                assert forall|x: int| is_candidate(e, now, x) implies out@.contains(x as usize) by {
                    assert(chosen@[x]);
                }
                    lemma_kept_zero(e, now, out@, n as int);
            }
            break;
        }
        let ghost old_out = out@;
        let ghost old_chosen = chosen@;
        let ghost old_total = total;
        proof {
            lemma_kept_push(e, now, old_out, best, n as int);
            lemma_kept_bound(e, now, old_out.push(best), n as int);
        }
        total = total - entries[best].1.size as u128;
        out.push(best);
        chosen.set(best, true);
        proof {
            assert(out@.take(old_out.len() as int) =~= old_out);
            assert(kept(e, now, out@.take(old_out.len() as int)) == old_total);
            assert forall|j: int| 0 <= j < old_out.len() implies out@.take(j) =~= old_out.take(j) by {}
            assert forall|j: int| 0 <= j < out@.len() implies kept(e, now, out@.take(j)) > budget by {
                if j < old_out.len() {
                    assert(out@.take(j) =~= old_out.take(j));
                }
            }
            assert forall|q: int| 0 <= q < n implies (chosen@[q] <==> out@.contains(q as usize)) by {
                if out@.contains(q as usize) && q != best {
                    let w = choose|w: int| 0 <= w < out@.len() && out@[w] == q as usize;
                    assert(old_out[w] == q as usize);
                }
                if old_out.contains(q as usize) {
                    let w = choose|w: int| 0 <= w < old_out.len() && old_out[w] == q as usize;
                    assert(out@[w] == q as usize);
                }
                if q == best {
                    assert(out@[old_out.len() as int] == best);
                }
            }
            assert forall|j: int, x: int|
                0 <= j < out@.len() && is_candidate(e, now, x) && !out@.take(j).contains(x as usize)
                implies priority(e[x].1, now) <= priority(e[out@[j] as int].1, now) by {
                if j == old_out.len() {
                    assert(out@.take(j) =~= old_out);
                    assert(!old_chosen[x]);
                    assert(prio@[x] <= prio@[best as int]);
                } else {
                    assert(out@.take(j) =~= old_out.take(j));
                    assert(out@[j] == old_out[j]);
                }
            }
            assert forall|j: int, q: int| 0 <= j < q < out@.len() implies out@[j] != out@[q] by {
                if q == old_out.len() {
                    assert(old_out.contains(out@[j]));
                }
            }
        }
    }
    out
}

/// Plans one cleanup pass over the scanned records: the expired and empty ones are
/// reclaimed, and under a budget the others are evicted greedily until they fit.
pub fn plan_cleanup(entries: &Vec<(String, PasteMeta)>, now: i64, budget: Option<u64>) -> (r: CleanupPlan)
    ensures
        r.reclaimed@ == reclaimed(entries@, now),
        budget is None ==> r.evicted@.len() == 0,
        budget matches Some(b) ==> greedy_eviction(entries@, now, b, r.evicted@),
{
    let mut out: Vec<usize> = Vec::new();
    let mut i: usize = 0;
    while i < entries.len()
        invariant
            0 <= i <= entries@.len(),
            out@ == reclaimed_upto(entries@, now, i as int),
        decreases entries@.len() - i,
    {
        let m = &entries[i].1;
        let reclaim = match m.expire_time {
            Some(t) => now >= t,
            None => false,
        } || m.size == 0;
        if reclaim {
            out.push(i);
        }
        i = i + 1;
    }
    let evicted = match budget {
        Some(b) => select_evictions(entries, now, b),
        None => Vec::new(),
    };
    CleanupPlan { reclaimed: out, evicted }
}

/// Eviction ordering: a candidate is evicted only after every candidate of strictly
/// higher priority has been evicted before it.
pub proof fn lemma_eviction_order(
    e: Seq<(String, PasteMeta)>,
    now: i64,
    budget: u64,
    r: Seq<usize>,
    high: int,
    low: int,
    j: int,
)
    requires
        greedy_eviction(e, now, budget, r),
        is_candidate(e, now, high),
        0 <= j < r.len(),
        r[j] as int == low,
        priority(e[low].1, now) < priority(e[high].1, now),
    ensures
        r.take(j).contains(high as usize),
{
}

proof fn lemma_reclaimed_upto(e: Seq<(String, PasteMeta)>, now: i64, n: int, i: int)
    requires
        0 <= n <= e.len() <= usize::MAX,
        0 <= i < e.len(),
    ensures
        reclaimed_upto(e, now, n).contains(i as usize) <==> (i < n && is_reclaimable(e[i].1, now)),
    decreases n,
{
    if n > 0 {
        lemma_reclaimed_upto(e, now, n - 1, i);
        let prev = reclaimed_upto(e, now, n - 1);
        if is_reclaimable(e[n - 1].1, now) {
            let cur = prev.push((n - 1) as usize);
            assert(cur[prev.len() as int] == (n - 1) as usize);
            if cur.contains(i as usize) {
                let k = choose|k: int| 0 <= k < cur.len() && cur[k] == i as usize;
                if k < prev.len() {
                    assert(prev[k] == cur[k]);
                }
            }
            if prev.contains(i as usize) {
                let k = choose|k: int| 0 <= k < prev.len() && prev[k] == i as usize;
                assert(cur[k] == prev[k]);
            }
        }
    }
}

proof fn lemma_reclaimed_upto_members(e: Seq<(String, PasteMeta)>, now: i64, n: int, q: int)
    requires
        0 <= n <= e.len(),
        0 <= q < reclaimed_upto(e, now, n).len(),
    ensures
        reclaimed_upto(e, now, n)[q] < n,
    decreases n,
{
    if n > 0 {
        let prev = reclaimed_upto(e, now, n - 1);
        if q < prev.len() {
            lemma_reclaimed_upto_members(e, now, n - 1, q);
        }
    }
}

/// Every reclaimed index points into the scanned list.
pub proof fn lemma_reclaimed_members(e: Seq<(String, PasteMeta)>, now: i64, q: int)
    requires
        0 <= q < reclaimed(e, now).len(),
    ensures
        reclaimed(e, now)[q] < e.len(),
{
    lemma_reclaimed_upto_members(e, now, e.len() as int, q);
}

proof fn lemma_reclaimed_upto_distinct(e: Seq<(String, PasteMeta)>, now: i64, n: int)
    requires
        0 <= n <= e.len() <= usize::MAX,
    ensures
        forall|a: int, b: int| 0 <= a < b < reclaimed_upto(e, now, n).len()
            ==> reclaimed_upto(e, now, n)[a] != reclaimed_upto(e, now, n)[b],
    decreases n,
{
    if n > 0 {
        lemma_reclaimed_upto_distinct(e, now, n - 1);
        let prev = reclaimed_upto(e, now, n - 1);
        assert forall|q: int| 0 <= q < prev.len() implies prev[q] < n - 1 by {
            lemma_reclaimed_upto_members(e, now, n - 1, q);
        }
    }
}

/// No record is reclaimed twice in one pass.
pub proof fn lemma_reclaimed_distinct(e: Seq<(String, PasteMeta)>, now: i64)
    requires
        e.len() <= usize::MAX,
    ensures
        forall|a: int, b: int| 0 <= a < b < reclaimed(e, now).len() ==> reclaimed(e, now)[a] != reclaimed(e, now)[b],
{
    lemma_reclaimed_upto_distinct(e, now, e.len() as int);
}

/// Expiry: a cleanup pass reclaims a record exactly when it has expired by `now` or
/// holds no content; a live record with content is never reclaimed.
pub proof fn lemma_reclaimed_exactly(e: Seq<(String, PasteMeta)>, now: i64, i: int)
    requires
        e.len() <= usize::MAX,
        0 <= i < e.len(),
    ensures
        reclaimed(e, now).contains(i as usize) <==> (is_expired(e[i].1, now) || e[i].1.size == 0),
{
    lemma_reclaimed_upto(e, now, e.len() as int, i);
}

} // verus!
