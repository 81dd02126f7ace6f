use vstd::prelude::*;
use crate::error::ApiError;

verus! {

/// The pieces of `s` between occurrences of `c`, as `str::split` yields them.
pub open spec fn split(s: Seq<char>, c: char) -> Seq<Seq<char>>
    decreases s.len(),
{
    if s.len() == 0 {
        seq![Seq::empty()]
    } else {
        let rest = split(s.drop_last(), c);
        if s.last() == c {
            rest.push(Seq::empty())
        } else {
            rest.update(rest.len() - 1, rest.last().push(s.last()))
        }
    }
}

/// Splitting always yields at least one piece.
pub proof fn lemma_split_len(s: Seq<char>, c: char)
    ensures
        split(s, c).len() >= 1,
    decreases s.len(),
{
    if s.len() > 0 {
        lemma_split_len(s.drop_last(), c);
    }
}

/// Splits `s` at every `c`.
pub fn split_at_char(s: &str, c: char) -> (r: Vec<String>)
    ensures
        r@.map_values(|p: String| p@) == split(s@, c),
{
    let n = s.unicode_len();
    let mut out: Vec<String> = Vec::new();
    let mut start: usize = 0;
    let mut i: usize = 0;
    proof {
        assert(s@.subrange(0, 0) =~= Seq::<char>::empty());
        assert(out@.map_values(|p: String| p@).push(s@.subrange(0, 0)) =~= seq![Seq::<char>::empty()]);
    }
    while i < n
        invariant
            n == s@.len(),
            0 <= start <= i <= n,
            out@.map_values(|p: String| p@).push(s@.subrange(start as int, i as int))
                == split(s@.subrange(0, i as int), c),
        decreases n - i,
    {
        let ch = s.get_char(i);
        proof {
            let pre = s@.subrange(0, i as int + 1);
            assert(pre.drop_last() =~= s@.subrange(0, i as int));
            assert(pre.last() == ch);
            lemma_split_len(s@.subrange(0, i as int), c);
        }
        if ch == c {
            let piece = s.substring_char(start, i).to_owned();
            let ghost before = out@.map_values(|p: String| p@);
            out.push(piece);
            start = i + 1;
            proof {
                assert(out@.map_values(|p: String| p@) =~= before.push(piece@));
                assert(s@.subrange(start as int, i as int + 1) =~= Seq::<char>::empty());
            }
        } else {
            proof {
                let v = out@.map_values(|p: String| p@);
                assert(s@.subrange(start as int, i as int + 1) =~= s@.subrange(start as int, i as int).push(ch));
                assert(v.push(s@.subrange(start as int, i as int + 1)) =~= v.push(
                    s@.subrange(start as int, i as int),
                ).update(v.len() as int, s@.subrange(start as int, i as int).push(ch)));
            }
        }
        i = i + 1;
    }
    let last = s.substring_char(start, n).to_owned();
    let ghost before = out@.map_values(|p: String| p@);
    out.push(last);
    proof {
        assert(out@.map_values(|p: String| p@) =~= before.push(last@));
        assert(s@.subrange(0, n as int) =~= s@);
    }
    out
}

/// The `key=value` pairs of a comma-separated query, or `None` when a piece does not
/// hold exactly one `=`.
pub open spec fn query_pairs(s: Seq<char>) -> Option<Seq<(Seq<char>, Seq<char>)>> {
    if s.len() == 0 {
        Some(Seq::empty())
    } else {
        let pieces = split(s, ',');
        if forall|i: int| 0 <= i < pieces.len() ==> #[trigger] split(pieces[i], '=').len() == 2 {
            Some(pieces.map_values(|p: Seq<char>| (split(p, '=')[0], split(p, '=')[1])))
        } else {
            None
        }
    }
}

/// The map built by inserting the pairs in order, a later key replacing an earlier one.
pub open spec fn pairs_map(ps: Seq<(Seq<char>, Seq<char>)>) -> Map<Seq<char>, Seq<char>>
    decreases ps.len(),
{
    if ps.len() == 0 {
        Map::empty()
    } else {
        pairs_map(ps.drop_last()).insert(ps.last().0, ps.last().1)
    }
}

/// The map that a list of pairs with distinct keys stands for.
pub open spec fn entries_map(v: Seq<(String, String)>) -> Map<Seq<char>, Seq<char>> {
    Map::new(
        |k: Seq<char>| exists|i: int| 0 <= i < v.len() && v[i].0@ == k,
        |k: Seq<char>| v[choose|i: int| 0 <= i < v.len() && v[i].0@ == k].1@,
    )
}

pub open spec fn distinct_keys(v: Seq<(String, String)>) -> bool {
    forall|i: int, j: int| 0 <= i < j < v.len() ==> v[i].0@ != v[j].0@
}

/// Parses `a=1,b=2` into its pairs; each key appears once, with the last value given for it.
pub fn parse_query_string(s: &str) -> (r: Result<Vec<(String, String)>, ApiError>)
    ensures
        r is Ok <==> query_pairs(s@) is Some,
        r matches Ok(v) ==> distinct_keys(v@) && entries_map(v@) == pairs_map(query_pairs(s@).unwrap()),
        r matches Err(e) ==> (e matches ApiError::BadRequest(m) && m@ == "Invalid query string"@),
{
    let mut args: Vec<(String, String)> = Vec::new();
    let len = s.unicode_len();
    if len == 0 {
        proof {
            assert(entries_map(args@) =~= Map::empty());
        }
        return Ok(args);
    }
    let pieces = split_at_char(s, ',');
    let ghost pv = pieces@.map_values(|p: String| p@);
    let ghost pairs = pv.map_values(|p: Seq<char>| (split(p, '=')[0], split(p, '=')[1]));
    let mut i: usize = 0;
    while i < pieces.len()
        invariant
            pv == pieces@.map_values(|p: String| p@),
            pv == split(s@, ','),
            pairs == pv.map_values(|p: Seq<char>| (split(p, '=')[0], split(p, '=')[1])),
            len == s@.len(),
            len != 0,
            0 <= i <= pieces@.len(),
            forall|k: int| 0 <= k < i ==> #[trigger] split(pv[k], '=').len() == 2,
            distinct_keys(args@),
            entries_map(args@) == pairs_map(pairs.take(i as int)),
        decreases pieces@.len() - i,
    {
        let arg = split_at_char(pieces[i].as_str(), '=');
        assert(pv[i as int] == pieces@[i as int]@);
        assert(arg@.map_values(|p: String| p@).len() == arg@.len());
        if arg.len() != 2 {
            proof {
                assert(split(pv[i as int], '=').len() != 2);
                assert(s@.len() != 0);
                assert(!(forall|k: int| 0 <= k < pv.len() ==> #[trigger] split(pv[k], '=').len() == 2));
            }
            return Err(ApiError::BadRequest("Invalid query string".to_owned()));
        }
        let key = arg[0].clone();
        let value = arg[1].clone();
        proof {
            assert(arg@.map_values(|p: String| p@)[0] == arg@[0]@);
            assert(arg@.map_values(|p: String| p@)[1] == arg@[1]@);
            assert(pairs[i as int] == (key@, value@));
            assert(pairs.take(i as int + 1).drop_last() =~= pairs.take(i as int));
        }
        let ghost before = args@;
        let mut j: usize = 0;
        while j < args.len()
            invariant
                0 <= j <= args@.len(),
                args@ == before,
                forall|q: int| 0 <= q < j ==> args@[q].0@ != key@,
            ensures
                0 <= j <= args@.len(),
                j < args@.len() ==> args@[j as int].0@ == key@,
                forall|q: int| 0 <= q < j ==> args@[q].0@ != key@,
            decreases args@.len() - j,
        {
            if args[j].0 == key {
                break;
            }
            j = j + 1;
        }
        if j < args.len() {
            let ghost old_args = args@;
            args.set(j, (key, value));
            proof {
                assert(old_args[j as int].0@ == key@);
                assert forall|a: int, b: int| 0 <= a < b < args@.len() implies args@[a].0@ != args@[b].0@ by {
                    assert(args@[a].0@ == old_args[a].0@);
                    assert(args@[b].0@ == old_args[b].0@);
                }
                assert(entries_map(args@) =~= entries_map(old_args).insert(key@, value@)) by {
                    assert forall|k: Seq<char>| #[trigger] entries_map(args@).contains_key(k) implies entries_map(args@)[k] == entries_map(old_args).insert(key@, value@)[k] by {
                        let w = choose|w: int| 0 <= w < args@.len() && args@[w].0@ == k;
                        if k == key@ {
                            assert(w == j);
                        } else {
                            let w2 = choose|w2: int| 0 <= w2 < old_args.len() && old_args[w2].0@ == k;
                            assert(w2 == w);
                        }
                    }
                    assert forall|k: Seq<char>| entries_map(old_args).insert(key@, value@).contains_key(k) implies #[trigger] entries_map(args@).contains_key(k) by {
                        if k == key@ {
                            assert(args@[j as int].0@ == k);
                        } else {
                            let w2 = choose|w2: int| 0 <= w2 < old_args.len() && old_args[w2].0@ == k;
                            assert(args@[w2].0@ == k);
                        }
                    }
                }
            }
        } else {
            let ghost old_args = args@;
            args.push((key, value));
            proof {
                assert forall|a: int, b: int| 0 <= a < b < args@.len() implies args@[a].0@ != args@[b].0@ by {
                    if b < old_args.len() {
                        assert(args@[a] == old_args[a]);
                        assert(args@[b] == old_args[b]);
                    } else {
                        assert(args@[a] == old_args[a]);
                    }
                }
                assert(entries_map(args@) =~= entries_map(old_args).insert(key@, value@)) by {
                    assert forall|k: Seq<char>| #[trigger] entries_map(args@).contains_key(k) implies entries_map(args@)[k] == entries_map(old_args).insert(key@, value@)[k] by {
                        let w = choose|w: int| 0 <= w < args@.len() && args@[w].0@ == k;
                        if k == key@ {
                            assert(w == old_args.len());
                        } else {
                            let w2 = choose|w2: int| 0 <= w2 < old_args.len() && old_args[w2].0@ == k;
                            assert(args@[w2] == old_args[w2]);
                            assert(w2 == w);
                        }
                    }
                    assert forall|k: Seq<char>| entries_map(old_args).insert(key@, value@).contains_key(k) implies #[trigger] entries_map(args@).contains_key(k) by {
                        if k == key@ {
                            assert(args@[old_args.len() as int].0@ == k);
                        } else {
                            let w2 = choose|w2: int| 0 <= w2 < old_args.len() && old_args[w2].0@ == k;
                            assert(args@[w2] == old_args[w2]);
                        }
                    }
                }
            }
        }
        i = i + 1;
    }
    proof {
        assert(pairs.take(pieces@.len() as int) =~= pairs);
    }
    Ok(args)
}

} // verus!
