use vstd::prelude::*;

verus! {

/// Where the cached content of paste `id` lives.
pub open spec fn content_key(id: Seq<char>) -> Seq<char> {
    id + ".content"@
}

/// Where the cached highlighted rendering of paste `id` lives.
pub open spec fn highlight_key(id: Seq<char>) -> Seq<char> {
    id + ".highlight"@
}

/// The cache after the entries of `id` are dropped.
pub open spec fn invalidated(cache: Map<Seq<char>, Seq<u8>>, id: Seq<char>) -> Map<Seq<char>, Seq<u8>> {
    cache.remove(content_key(id)).remove(highlight_key(id))
}

/// What a read through the cache returns: the cached content, or else the backend's.
pub open spec fn served(cache: Map<Seq<char>, Seq<u8>>, id: Seq<char>, backend: Seq<u8>) -> Seq<u8> {
    if cache.contains_key(content_key(id)) {
        cache[content_key(id)]
    } else {
        backend
    }
}

pub fn content_key_of(id: &str) -> (r: String)
    ensures
        r@ == content_key(id@),
{
    let mut k = id.to_owned();
    k.append(".content");
    k
}

pub fn highlight_key_of(id: &str) -> (r: String)
    ensures
        r@ == highlight_key(id@),
{
    let mut k = id.to_owned();
    k.append(".highlight");
    k
}

/// The cache entries to drop when paste `id` changes or goes away.
pub fn invalidation_keys(id: &str) -> (r: Vec<String>)
    ensures
        r@.len() == 2,
        r@[0]@ == content_key(id@),
        r@[1]@ == highlight_key(id@),
{
    let mut v: Vec<String> = Vec::new();
    v.push(content_key_of(id));
    v.push(highlight_key_of(id));
    v
}

/// What a cached read does next.
pub enum CacheStep {
    /// Answer with the cached bytes.
    Serve(Vec<u8>),
    /// Read from the backend, then offer the result to the cache when it is buffered.
    Backend,
}

/// Decides a read from what the cache answered: a hit is served as it is; a miss or an
/// unreachable cache goes to the backend.
pub fn plan_read(lookup: Option<Vec<u8>>) -> (r: CacheStep)
    ensures
        lookup matches Some(b) ==> (r matches CacheStep::Serve(c) && c@ == b@),
        lookup is None ==> r is Backend,
{
    match lookup {
        Some(b) => CacheStep::Serve(b),
        None => CacheStep::Backend,
    }
}

/// Whether a backend result goes into the cache: only buffered content is cached.
pub fn should_cache(buffered: bool) -> (r: bool)
    ensures
        r == buffered,
{
    buffered
}

/// Cache consistency: once the entries of `id` are dropped, a read through the cache
/// returns what the backend holds, never an older cached copy.
pub proof fn lemma_read_after_update(cache: Map<Seq<char>, Seq<u8>>, id: Seq<char>, backend: Seq<u8>)
    ensures
        served(invalidated(cache, id), id, backend) == backend,
{
    reveal_strlit(".content");
    reveal_strlit(".highlight");
    let c = invalidated(cache, id);
    assert(!c.contains_key(content_key(id)));
}

} // verus!
