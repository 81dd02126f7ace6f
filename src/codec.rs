use vstd::prelude::*;
use vstd::utf8::*;
use vstd::string::*;
use crate::meta::{MetaView, PasteMeta};

verus! {

broadcast use {encode_utf8_valid_utf8, encode_utf8_decode_utf8};

pub open spec fn pow256(n: nat) -> nat
    decreases n,
{
    if n == 0 {
        1
    } else {
        256 * pow256((n - 1) as nat)
    }
}

/// The `n` low bytes of `x`, least significant first.
pub open spec fn le_bytes(x: nat, n: nat) -> Seq<u8>
    decreases n,
{
    if n == 0 {
        Seq::empty()
    } else {
        seq![(x % 256) as u8] + le_bytes(x / 256, (n - 1) as nat)
    }
}

/// The number that little-endian bytes stand for.
pub open spec fn le_value(s: Seq<u8>) -> nat
    decreases s.len(),
{
    if s.len() == 0 {
        0
    } else {
        s[0] as nat + 256 * le_value(s.drop_first())
    }
}

pub open spec fn u64_bytes(x: u64) -> Seq<u8> {
    le_bytes(x as nat, 8)
}

pub open spec fn i64_bytes(x: i64) -> Seq<u8> {
    u64_bytes(x as u64)
}

/// A string: its UTF-8 length as eight bytes, then its UTF-8 bytes.
pub open spec fn str_bytes(s: Seq<char>) -> Seq<u8> {
    u64_bytes(encode_utf8(s).len() as u64) + encode_utf8(s)
}

/// An optional time: a zero tag, or a one tag and the time.
pub open spec fn opt_time_bytes(t: Option<i64>) -> Seq<u8> {
    match t {
        None => seq![0u8],
        Some(x) => seq![1u8] + i64_bytes(x),
    }
}

pub open spec fn opt_str_bytes(t: Option<Seq<char>>) -> Seq<u8> {
    match t {
        None => seq![0u8],
        Some(s) => seq![1u8] + str_bytes(s),
    }
}

/// The stored form of a metadata record: its fields in a fixed order, so that fields
/// added later go at the end.
pub open spec fn encode_record(m: MetaView) -> Seq<u8> {
    i64_bytes(m.create_time) + tail_expire(m)
}

pub open spec fn tail_expire(m: MetaView) -> Seq<u8> {
    opt_time_bytes(m.expire_time) + tail_atime(m)
}

pub open spec fn tail_atime(m: MetaView) -> Seq<u8> {
    opt_time_bytes(m.atime) + tail_name(m)
}

pub open spec fn tail_name(m: MetaView) -> Seq<u8> {
    opt_str_bytes(m.name) + tail_size(m)
}

pub open spec fn tail_size(m: MetaView) -> Seq<u8> {
    u64_bytes(m.size) + str_bytes(m.key)
}

pub open spec fn prefix_at(x: Seq<u8>, b: Seq<u8>, pos: int) -> bool {
    0 <= pos && pos + x.len() <= b.len() && b.subrange(pos, pos + x.len()) == x
}

proof fn lemma_pow256_8()
    ensures
        pow256(8) == 0x1_0000_0000_0000_0000,
{
    reveal_with_fuel(pow256, 9);
}

proof fn lemma_le_bytes(x: nat, n: nat)
    requires
        x < pow256(n),
    ensures
        le_bytes(x, n).len() == n,
        le_value(le_bytes(x, n)) == x,
    decreases n,
{
    if n > 0 {
        assert(x / 256 < pow256((n - 1) as nat)) by (nonlinear_arith)
            requires
                x < 256 * pow256((n - 1) as nat),
        ;
        lemma_le_bytes(x / 256, (n - 1) as nat);
        let s = le_bytes(x, n);
        assert(s.drop_first() =~= le_bytes(x / 256, (n - 1) as nat));
    }
}

proof fn lemma_le_value(s: Seq<u8>)
    ensures
        le_value(s) < pow256(s.len()),
        le_bytes(le_value(s), s.len()) == s,
    decreases s.len(),
{
    if s.len() > 0 {
        lemma_le_value(s.drop_first());
        let v = le_value(s);
        let t = le_value(s.drop_first());
        assert(v % 256 == s[0] as nat && v / 256 == t) by (nonlinear_arith)
            requires
                v == s[0] as nat + 256 * t,
                s[0] < 256,
        ;
        assert(v < pow256(s.len())) by (nonlinear_arith)
            requires
                v == s[0] as nat + 256 * t,
                s[0] < 256,
                t < pow256((s.len() - 1) as nat),
                pow256(s.len()) == 256 * pow256((s.len() - 1) as nat),
        ;
        assert(le_bytes(v, s.len()) =~= s);
    }
}

proof fn lemma_u64_bytes(x: u64)
    ensures
        u64_bytes(x).len() == 8,
        le_value(u64_bytes(x)) == x,
{
    lemma_pow256_8();
    lemma_le_bytes(x as nat, 8);
}

proof fn lemma_i64_cast(x: i64, y: i64)
    ensures
        (x as u64 == y as u64) ==> x == y,
{
    assert((x as u64 == y as u64) ==> x == y) by (bit_vector);
}

proof fn lemma_u64_i64(u: u64)
    ensures
        (u as i64) as u64 == u,
{
    assert((u as i64) as u64 == u) by (bit_vector);
}

proof fn lemma_str_bytes_len(s: Seq<char>)
    requires
        encode_utf8(s).len() <= u64::MAX,
    ensures
        str_bytes(s).len() == 8 + encode_utf8(s).len(),
{
    lemma_u64_bytes(encode_utf8(s).len() as u64);
}

/// Appends the eight little-endian bytes of `x`.
fn push_u64(out: &mut Vec<u8>, x: u64)
    ensures
        final(out)@ == old(out)@ + u64_bytes(x),
{
    let ghost start = old(out)@;
    let mut y: u64 = x;
    let mut k: usize = 0;
    assert(start + u64_bytes(x) =~= out@ + le_bytes(y as nat, 8));
    while k < 8
        invariant
            0 <= k <= 8,
            start + u64_bytes(x) == out@ + le_bytes(y as nat, (8 - k) as nat),
        decreases 8 - k,
    {
        let ghost before = out@;
        out.push((y % 256) as u8);
        proof {
            let rest = le_bytes(y as nat, (8 - k) as nat);
            assert(rest =~= seq![(y % 256) as u8] + le_bytes((y / 256) as nat, (8 - k - 1) as nat));
            assert(before + rest =~= out@ + le_bytes((y / 256) as nat, (8 - k - 1) as nat));
        }
        y = y / 256;
        k = k + 1;
    }
    assert(out@ + le_bytes(y as nat, 0) =~= out@);
}

fn push_bytes(out: &mut Vec<u8>, b: &Vec<u8>)
    ensures
        final(out)@ == old(out)@ + b@,
{
    let ghost start = old(out)@;
    let mut i: usize = 0;
    while i < b.len()
        invariant
            0 <= i <= b@.len(),
            out@ == start + b@.subrange(0, i as int),
        decreases b@.len() - i,
    {
        out.push(b[i]);
        i = i + 1;
        assert(out@ =~= start + b@.subrange(0, i as int));
    }
    assert(b@.subrange(0, b@.len() as int) =~= b@);
}

fn push_str(out: &mut Vec<u8>, s: &String)
    ensures
        final(out)@ == old(out)@ + str_bytes(s@),
{
    let bytes = s.as_str().as_bytes_vec();
    let ghost start = old(out)@;
    push_u64(out, bytes.len() as u64);
    push_bytes(out, &bytes);
    assert(out@ =~= start + str_bytes(s@));
}

fn push_opt_time(out: &mut Vec<u8>, t: Option<i64>)
    ensures
        final(out)@ == old(out)@ + opt_time_bytes(t),
{
    let ghost start = old(out)@;
    match t {
        None => {
            out.push(0u8);
            assert(out@ =~= start + opt_time_bytes(t));
        }
        Some(x) => {
            out.push(1u8);
            push_u64(out, #[verifier::truncate] (x as u64));
            assert(out@ =~= start + opt_time_bytes(t));
        }
    }
}

/// The stored form of `m`.
pub fn encode_meta(m: &PasteMeta) -> (r: Vec<u8>)
    ensures
        r@ == encode_record(m@),
{
    let mut out: Vec<u8> = Vec::new();
    push_u64(&mut out, #[verifier::truncate] (m.create_time as u64));
    push_opt_time(&mut out, m.expire_time);
    push_opt_time(&mut out, m.atime);
    match &m.name {
        None => {
            out.push(0u8);
        }
        Some(n) => {
            out.push(1u8);
            push_str(&mut out, n);
        }
    }
    push_u64(&mut out, m.size);
    push_str(&mut out, &m.key);
    assert(out@ =~= encode_record(m@));
    out
}

/// Relies on `String::from_utf8`: it accepts exactly the valid UTF-8 byte strings and
/// keeps the characters they encode.
#[verifier::external_body]
pub(crate) fn string_from_utf8(b: Vec<u8>) -> (r: Option<String>)
    ensures
        r is Some <==> valid_utf8(b@),
        r matches Some(s) ==> s@ == decode_utf8(b@),
{
    String::from_utf8(b).ok()
}

/// Reads eight little-endian bytes at `pos`.
fn read_u64(b: &Vec<u8>, pos: usize) -> (r: Option<u64>)
    requires
        pos <= b@.len(),
    ensures
        r is Some <==> pos + 8 <= b@.len(),
        r matches Some(x) ==> b@.subrange(pos as int, pos + 8) == u64_bytes(x),
{
    let n = b.len();
    if n - pos < 8 {
        return None;
    }
    let ghost whole = b@.subrange(pos as int, pos + 8);
    let mut acc: u64 = 0;
    let mut k: usize = 8;
    proof {
        lemma_pow256_8();
        assert(b@.subrange(pos + 8, pos + 8) =~= Seq::<u8>::empty());
    }
    while k > 0
        invariant
            n == b@.len(),
            pos + 8 <= b@.len(),
            0 <= k <= 8,
            acc == le_value(b@.subrange(pos + k, pos + 8)),
            pow256(8) == 0x1_0000_0000_0000_0000,
        decreases k,
    {
        let ghost tail = b@.subrange(pos + k, pos + 8);
        let ghost cur = b@.subrange(pos + k - 1, pos + 8);
        proof {
            assert(cur.drop_first() =~= tail);
            lemma_le_value(cur);
            assert(cur.len() <= 8);
            assert(pow256(cur.len()) <= pow256(8)) by {
                reveal_with_fuel(pow256, 9);
            }
        }
        let idx: usize = pos + (k - 1);
        let byte = b[idx];
        acc = byte as u64 + 256 * acc;
        k = k - 1;
    }
    proof {
        lemma_le_value(whole);
    }
    Some(acc)
}

proof fn lemma_u64_read(b: Seq<u8>, pos: int, x: u64, y: u64)
    requires
        b.subrange(pos, pos + 8) == u64_bytes(x),
        b.subrange(pos, pos + 8) == u64_bytes(y),
    ensures
        x == y,
{
    lemma_u64_bytes(x);
    lemma_u64_bytes(y);
}

proof fn lemma_split_at(b: Seq<u8>, pos: int, x: Seq<u8>, rest: Seq<u8>)
    requires
        0 <= pos <= b.len(),
        b.subrange(pos, b.len() as int) == x + rest,
    ensures
        pos + x.len() <= b.len(),
        b.subrange(pos, pos + x.len()) == x,
        b.subrange(pos + x.len(), b.len() as int) == rest,
{
    assert(b.subrange(pos, pos + x.len()) =~= (x + rest).subrange(0, x.len() as int));
    assert(b.subrange(pos + x.len(), b.len() as int) =~= (x + rest).subrange(x.len() as int, (x + rest).len() as int));
}

fn read_opt_time(b: &Vec<u8>, pos: usize, Ghost(expect): Ghost<Option<i64>>, Ghost(rest): Ghost<Seq<u8>>) -> (r: Option<(Option<i64>, usize)>)
    requires
        pos <= b@.len(),
    ensures
        r matches Some((t, p)) ==> pos <= p <= b@.len() && b@.subrange(pos as int, p as int) == opt_time_bytes(t),
        b@.subrange(pos as int, b@.len() as int) == opt_time_bytes(expect) + rest
            ==> r == Some((expect, (pos + opt_time_bytes(expect).len()) as usize)),
{
    let ghost good = b@.subrange(pos as int, b@.len() as int) == opt_time_bytes(expect) + rest;
    proof {
        if good {
            lemma_split_at(b@, pos as int, opt_time_bytes(expect), rest);
            if let Some(x) = expect {
                lemma_u64_bytes(x as u64);
                assert(b@[pos as int] == opt_time_bytes(expect)[0]);
            } else {
                assert(b@[pos as int] == opt_time_bytes(expect)[0]);
            }
        }
    }
    if pos >= b.len() {
        return None;
    }
    let tag = b[pos];
    if tag == 0 {
        assert(b@.subrange(pos as int, pos + 1) =~= seq![0u8]);
        Some((None, pos + 1))
    } else if tag == 1 {
        match read_u64(b, pos + 1) {
            Some(x) => {
                let t = #[verifier::truncate] (x as i64);
                proof {
                    lemma_u64_i64(x);
                    assert(b@.subrange(pos as int, pos + 9) =~= seq![1u8] + b@.subrange(pos + 1, pos + 9));
                    if good {
                        let e = expect.unwrap();
                        assert(b@.subrange(pos + 1, pos + 9) =~= opt_time_bytes(expect).subrange(1, 9));
                        assert(opt_time_bytes(expect).subrange(1, 9) =~= u64_bytes(e as u64));
                        lemma_u64_read(b@, pos + 1, x, e as u64);
                        lemma_i64_cast(t, e);
                    }
                }
                Some((Some(t), pos + 9))
            },
            None => None,
        }
    } else {
        None
    }
}

fn read_str(b: &Vec<u8>, pos: usize, Ghost(expect): Ghost<Seq<char>>, Ghost(rest): Ghost<Seq<u8>>) -> (r: Option<(String, usize)>)
    requires
        pos <= b@.len(),
    ensures
        r matches Some((s, p)) ==> pos <= p <= b@.len() && b@.subrange(pos as int, p as int) == str_bytes(s@),
        b@.subrange(pos as int, b@.len() as int) == str_bytes(expect) + rest
            ==> (r matches Some((s, p)) && s@ == expect && p == pos + str_bytes(expect).len()),
{
    let ghost good = b@.subrange(pos as int, b@.len() as int) == str_bytes(expect) + rest;
    let ghost enc = encode_utf8(expect);
    proof {
        if good {
            lemma_split_at(b@, pos as int, str_bytes(expect), rest);
            lemma_u64_bytes(enc.len() as u64);
            assert(b@.subrange(pos as int, pos + 8) =~= str_bytes(expect).subrange(0, 8));
            assert(str_bytes(expect).subrange(0, 8) =~= u64_bytes(enc.len() as u64));
        }
    }
    let n = match read_u64(b, pos) {
        Some(n) => n,
        None => {
            return None;
        },
    };
    if n > (b.len() - pos - 8) as u64 {
        proof {
            if good {
                lemma_u64_read(b@, pos as int, n, enc.len() as u64);
            }
        }
        return None;
    }
    let end: usize = pos + 8 + n as usize;
    let bytes = vstd::slice::slice_to_vec(vstd::slice::slice_subrange(b.as_slice(), pos + 8, end));
    let ghost bv = bytes@;
    proof {
        if good {
            lemma_u64_read(b@, pos as int, n, enc.len() as u64);
            assert(bv =~= str_bytes(expect).subrange(8, 8 + enc.len() as int));
            assert(str_bytes(expect).subrange(8, 8 + enc.len() as int) =~= enc);
        }
    }
    match string_from_utf8(bytes) {
        Some(s) => {
            proof {
                decode_utf8_encode_utf8(bv);
                lemma_u64_bytes(n);
                assert(b@.subrange(pos as int, end as int) =~= b@.subrange(pos as int, pos + 8) + bv);
            }
            Some((s, end))
        },
        None => None,
    }
}

fn read_opt_str(b: &Vec<u8>, pos: usize, Ghost(expect): Ghost<Option<Seq<char>>>, Ghost(rest): Ghost<Seq<u8>>) -> (r: Option<(Option<String>, usize)>)
    requires
        pos <= b@.len(),
    ensures
        r matches Some((t, p)) ==> pos <= p <= b@.len() && b@.subrange(pos as int, p as int) == opt_str_bytes(crate::meta::name_view(t)),
        b@.subrange(pos as int, b@.len() as int) == opt_str_bytes(expect) + rest
            ==> (r matches Some((t, p)) && crate::meta::name_view(t) == expect && p == pos + opt_str_bytes(expect).len()),
{
    let ghost good = b@.subrange(pos as int, b@.len() as int) == opt_str_bytes(expect) + rest;
    proof {
        if good {
            lemma_split_at(b@, pos as int, opt_str_bytes(expect), rest);
            assert(b@[pos as int] == opt_str_bytes(expect)[0]);
        }
    }
    if pos >= b.len() {
        return None;
    }
    let tag = b[pos];
    if tag == 0 {
        assert(b@.subrange(pos as int, pos + 1) =~= seq![0u8]);
        Some((None, pos + 1))
    } else if tag == 1 {
        let ghost inner = match expect {
            Some(e) => e,
            None => Seq::empty(),
        };
        proof {
            if good {
                let e = expect.unwrap();
                assert(b@.subrange(pos + 1, b@.len() as int) =~= b@.subrange(pos as int, b@.len() as int).drop_first());
                assert((opt_str_bytes(expect) + rest).drop_first() =~= str_bytes(e) + rest);
            }
        }
        match read_str(b, pos + 1, Ghost(inner), Ghost(rest)) {
            Some((s, p)) => {
                assert(b@.subrange(pos as int, p as int) =~= seq![1u8] + b@.subrange(pos + 1, p as int));
                Some((Some(s), p))
            },
            None => None,
        }
    } else {
        None
    }
}

/// Reads a stored metadata record back; fails exactly on bytes that encode no record.
pub fn decode_meta(b: &Vec<u8>) -> (r: Option<PasteMeta>)
    ensures
        r matches Some(m) ==> encode_record(m@) == b@,
        r is None ==> forall|v: MetaView| encode_record(v) != b@,
{
    let ghost ok = exists|v: MetaView| encode_record(v) == b@;
    let ghost v = choose|v: MetaView| encode_record(v) == b@;
    let ghost len = b@.len() as int;
    proof {
        if ok {
            assert(b@.subrange(0, len) =~= b@);
            lemma_split_at(b@, 0, i64_bytes(v.create_time), tail_expire(v));
            lemma_u64_bytes(v.create_time as u64);
            lemma_split_at(b@, 8, opt_time_bytes(v.expire_time), tail_atime(v));
        }
    }
    let c = match read_u64(b, 0) {
        Some(x) => x,
        None => {
            return None;
        },
    };
    let create_time = #[verifier::truncate] (c as i64);
    proof {
        lemma_u64_i64(c);
        if ok {
            lemma_u64_read(b@, 0, c, v.create_time as u64);
            lemma_i64_cast(create_time, v.create_time);
        }
    }
    let (expire_time, p1) = match read_opt_time(b, 8, Ghost(v.expire_time), Ghost(tail_atime(v))) {
        Some(x) => x,
        None => {
            return None;
        },
    };
    proof {
        if ok {
            lemma_split_at(b@, 8, opt_time_bytes(v.expire_time), tail_atime(v));
            lemma_split_at(b@, p1 as int, opt_time_bytes(v.atime), tail_name(v));
        }
    }
    let (atime, p2) = match read_opt_time(b, p1, Ghost(v.atime), Ghost(tail_name(v))) {
        Some(x) => x,
        None => {
            return None;
        },
    };
    proof {
        if ok {
            lemma_split_at(b@, p2 as int, opt_str_bytes(v.name), tail_size(v));
        }
    }
    let (name, p3) = match read_opt_str(b, p2, Ghost(v.name), Ghost(tail_size(v))) {
        Some(x) => x,
        None => {
            return None;
        },
    };
    proof {
        if ok {
            lemma_split_at(b@, p3 as int, u64_bytes(v.size), str_bytes(v.key));
            lemma_u64_bytes(v.size);
        }
    }
    let size = match read_u64(b, p3) {
        Some(x) => x,
        None => {
            return None;
        },
    };
    let total = b.len();
    let p4 = p3 + 8;
    proof {
        if ok {
            lemma_u64_read(b@, p3 as int, size, v.size);
            assert(b@.subrange(p4 as int, len) =~= str_bytes(v.key) + Seq::<u8>::empty());
        }
    }
    let (key, p5) = match read_str(b, p4, Ghost(v.key), Ghost(Seq::<u8>::empty())) {
        Some(x) => x,
        None => {
            return None;
        },
    };
    if p5 != b.len() {
        return None;
    }
    let m = PasteMeta { create_time, expire_time, atime, name, size, key };
    proof {
        lemma_u64_i64(c);
        assert(b@ =~= b@.subrange(0, 8) + (b@.subrange(8, p1 as int) + (b@.subrange(p1 as int, p2 as int) + (
        b@.subrange(p2 as int, p3 as int) + (b@.subrange(p3 as int, p4 as int) + b@.subrange(p4 as int, p5 as int))))));
    }
    Some(m)
}

proof fn lemma_concat_eq(x1: Seq<u8>, r1: Seq<u8>, x2: Seq<u8>, r2: Seq<u8>)
    requires
        x1 + r1 == x2 + r2,
        x1.len() == x2.len(),
    ensures
        x1 == x2,
        r1 == r2,
{
    assert(x1 =~= (x1 + r1).subrange(0, x1.len() as int));
    assert(x2 =~= (x2 + r2).subrange(0, x2.len() as int));
    assert(r1 =~= (x1 + r1).subrange(x1.len() as int, (x1 + r1).len() as int));
    assert(r2 =~= (x2 + r2).subrange(x2.len() as int, (x2 + r2).len() as int));
}

proof fn lemma_u64_bytes_injective(x: u64, y: u64)
    requires
        u64_bytes(x) == u64_bytes(y),
    ensures
        x == y,
{
    lemma_u64_bytes(x);
    lemma_u64_bytes(y);
}

proof fn lemma_time_tail(a: Option<i64>, ra: Seq<u8>, b: Option<i64>, rb: Seq<u8>)
    requires
        opt_time_bytes(a) + ra == opt_time_bytes(b) + rb,
    ensures
        a == b,
        ra == rb,
{
    let ea = opt_time_bytes(a) + ra;
    let eb = opt_time_bytes(b) + rb;
    assert(ea[0] == opt_time_bytes(a)[0]);
    assert(eb[0] == opt_time_bytes(b)[0]);
    if let Some(x) = a {
        let y = b.unwrap();
        lemma_u64_bytes(x as u64);
        lemma_u64_bytes(y as u64);
        assert(opt_time_bytes(a) =~= seq![1u8] + u64_bytes(x as u64));
        lemma_concat_eq(opt_time_bytes(a), ra, opt_time_bytes(b), rb);
        assert(u64_bytes(x as u64) =~= opt_time_bytes(a).drop_first());
        assert(u64_bytes(y as u64) =~= opt_time_bytes(b).drop_first());
        lemma_u64_bytes_injective(x as u64, y as u64);
        lemma_i64_cast(x, y);
    } else {
        lemma_concat_eq(opt_time_bytes(a), ra, opt_time_bytes(b), rb);
    }
}

proof fn lemma_str_tail(a: Seq<char>, ra: Seq<u8>, b: Seq<char>, rb: Seq<u8>)
    requires
        str_bytes(a) + ra == str_bytes(b) + rb,
        (str_bytes(a) + ra).len() <= u64::MAX,
    ensures
        a == b,
        ra == rb,
{
    let la = encode_utf8(a).len();
    let lb = encode_utf8(b).len();
    lemma_u64_bytes(la as u64);
    lemma_u64_bytes(lb as u64);
    let ea = str_bytes(a) + ra;
    assert(u64_bytes(la as u64) =~= ea.subrange(0, 8));
    assert(u64_bytes(lb as u64) =~= (str_bytes(b) + rb).subrange(0, 8));
    lemma_u64_bytes_injective(la as u64, lb as u64);
    assert(la == lb);
    lemma_concat_eq(str_bytes(a), ra, str_bytes(b), rb);
    assert(encode_utf8(a) =~= str_bytes(a).subrange(8, 8 + la as int));
    assert(encode_utf8(b) =~= str_bytes(b).subrange(8, 8 + lb as int));
    assert(decode_utf8(encode_utf8(a)) == a);
    assert(decode_utf8(encode_utf8(b)) == b);
}

proof fn lemma_name_tail(a: Option<Seq<char>>, ra: Seq<u8>, b: Option<Seq<char>>, rb: Seq<u8>)
    requires
        opt_str_bytes(a) + ra == opt_str_bytes(b) + rb,
        (opt_str_bytes(a) + ra).len() <= u64::MAX,
    ensures
        a == b,
        ra == rb,
{
    let ea = opt_str_bytes(a) + ra;
    let eb = opt_str_bytes(b) + rb;
    assert(ea[0] == opt_str_bytes(a)[0]);
    assert(eb[0] == opt_str_bytes(b)[0]);
    if let Some(x) = a {
        let y = b.unwrap();
        assert(ea.drop_first() =~= str_bytes(x) + ra);
        assert(eb.drop_first() =~= str_bytes(y) + rb);
        lemma_str_tail(x, ra, y, rb);
    } else {
        lemma_concat_eq(opt_str_bytes(a), ra, opt_str_bytes(b), rb);
    }
}

/// Distinct records are stored as distinct bytes.
pub proof fn lemma_record_injective(a: MetaView, b: MetaView)
    requires
        encode_record(a) == encode_record(b),
        encode_record(a).len() <= u64::MAX,
    ensures
        a == b,
{
    lemma_u64_bytes(a.create_time as u64);
    lemma_u64_bytes(b.create_time as u64);
    lemma_concat_eq(i64_bytes(a.create_time), tail_expire(a), i64_bytes(b.create_time), tail_expire(b));
    lemma_u64_bytes_injective(a.create_time as u64, b.create_time as u64);
    lemma_i64_cast(a.create_time, b.create_time);
    lemma_time_tail(a.expire_time, tail_atime(a), b.expire_time, tail_atime(b));
    lemma_time_tail(a.atime, tail_name(a), b.atime, tail_name(b));
    lemma_name_tail(a.name, tail_size(a), b.name, tail_size(b));
    lemma_u64_bytes(a.size);
    lemma_u64_bytes(b.size);
    lemma_concat_eq(u64_bytes(a.size), str_bytes(a.key), u64_bytes(b.size), str_bytes(b.key));
    lemma_u64_bytes_injective(a.size, b.size);
    lemma_str_tail(a.key, Seq::empty(), b.key, Seq::empty());
    assert(str_bytes(a.key) + Seq::<u8>::empty() =~= str_bytes(a.key));
    assert(str_bytes(b.key) + Seq::<u8>::empty() =~= str_bytes(b.key));
}

} // verus!
