//! The binary record format of a collection.
//!
//! All integers are little-endian and of fixed width:
//! - a length or count is a `u64`;
//! - a string is its byte length followed by its UTF-8 bytes;
//! - a vector is its length followed by each component as a `u32`;
//! - metadata is one byte, `0` for none or `1` followed by the number of
//!   entries and each key and value as strings;
//! - an embedding is its identifier, vector and metadata;
//! - a collection is its dimension (`u64`), its metric as a `u32`
//!   (`0` cosine, `1` euclidean, `2` dot), the number of embeddings, and the
//!   embeddings; the dirty flag is not stored;
//! - a whole database (the single-file layout of older stores) is the number
//!   of collections followed by each name (a string) and collection.
//!
//! This is the layout that bincode 1 gives these records with its default
//! options.

use vstd::prelude::*;
use vstd::string::StringSliceAdditionalSpecFns;
use vstd::utf8::*;
use crate::collection::{views, Collection, CollectionView, Distance};
use crate::embedding::{metadata_view, pairs_view, Embedding, EmbeddingView, PairsView};

verus! {

/// The eight little-endian bytes of a `u64`.
pub open spec fn u64_bytes(x: u64) -> Seq<u8> {
    seq![
        (x & 0xff) as u8,
        ((x >> 8u64) & 0xff) as u8,
        ((x >> 16u64) & 0xff) as u8,
        ((x >> 24u64) & 0xff) as u8,
        ((x >> 32u64) & 0xff) as u8,
        ((x >> 40u64) & 0xff) as u8,
        ((x >> 48u64) & 0xff) as u8,
        ((x >> 56u64) & 0xff) as u8,
    ]
}

/// The `u64` of eight little-endian bytes.
pub open spec fn u64_of(b: Seq<u8>) -> u64 {
    (b[0] as u64) | ((b[1] as u64) << 8u64) | ((b[2] as u64) << 16u64) | ((b[3] as u64) << 24u64)
        | ((b[4] as u64) << 32u64) | ((b[5] as u64) << 40u64) | ((b[6] as u64) << 48u64) | ((
    b[7] as u64) << 56u64)
}

/// The four little-endian bytes of a `u32`.
pub open spec fn u32_bytes(x: u32) -> Seq<u8> {
    seq![
        (x & 0xff) as u8,
        ((x >> 8u32) & 0xff) as u8,
        ((x >> 16u32) & 0xff) as u8,
        ((x >> 24u32) & 0xff) as u8,
    ]
}

/// The `u32` of four little-endian bytes.
pub open spec fn u32_of(b: Seq<u8>) -> u32 {
    (b[0] as u32) | ((b[1] as u32) << 8u32) | ((b[2] as u32) << 16u32) | ((b[3] as u32) << 24u32)
}

proof fn lemma_u64_round_trip(x: u64)
    ensures
        u64_of(u64_bytes(x)) == x,
{
    let b = u64_bytes(x);
    let b0 = b[0];
    let b1 = b[1];
    let b2 = b[2];
    let b3 = b[3];
    let b4 = b[4];
    let b5 = b[5];
    let b6 = b[6];
    let b7 = b[7];
    assert((b0 as u64) | ((b1 as u64) << 8u64) | ((b2 as u64) << 16u64) | ((b3 as u64) << 24u64)
        | ((b4 as u64) << 32u64) | ((b5 as u64) << 40u64) | ((b6 as u64) << 48u64) | ((b7 as u64)
        << 56u64) == x) by (bit_vector)
        requires
            b0 == (x & 0xff) as u8,
            b1 == ((x >> 8u64) & 0xff) as u8,
            b2 == ((x >> 16u64) & 0xff) as u8,
            b3 == ((x >> 24u64) & 0xff) as u8,
            b4 == ((x >> 32u64) & 0xff) as u8,
            b5 == ((x >> 40u64) & 0xff) as u8,
            b6 == ((x >> 48u64) & 0xff) as u8,
            b7 == ((x >> 56u64) & 0xff) as u8,
    ;
}

proof fn lemma_u32_round_trip(x: u32)
    ensures
        u32_of(u32_bytes(x)) == x,
{
    let b = u32_bytes(x);
    let b0 = b[0];
    let b1 = b[1];
    let b2 = b[2];
    let b3 = b[3];
    assert((b0 as u32) | ((b1 as u32) << 8u32) | ((b2 as u32) << 16u32) | ((b3 as u32) << 24u32)
        == x) by (bit_vector)
        requires
            b0 == (x & 0xff) as u8,
            b1 == ((x >> 8u32) & 0xff) as u8,
            b2 == ((x >> 16u32) & 0xff) as u8,
            b3 == ((x >> 24u32) & 0xff) as u8,
    ;
}

/// Appends the bytes of a `u64`.
pub fn write_u64(out: &mut Vec<u8>, x: u64)
    ensures
        final(out)@ == old(out)@ + u64_bytes(x),
{
    out.push((x & 0xff) as u8);
    out.push(((x >> 8) & 0xff) as u8);
    out.push(((x >> 16) & 0xff) as u8);
    out.push(((x >> 24) & 0xff) as u8);
    out.push(((x >> 32) & 0xff) as u8);
    out.push(((x >> 40) & 0xff) as u8);
    out.push(((x >> 48) & 0xff) as u8);
    out.push(((x >> 56) & 0xff) as u8);
    assert(out@ =~= old(out)@ + u64_bytes(x));
}

/// Appends the bytes of a `u32`.
pub fn write_u32(out: &mut Vec<u8>, x: u32)
    ensures
        final(out)@ == old(out)@ + u32_bytes(x),
{
    out.push((x & 0xff) as u8);
    out.push(((x >> 8) & 0xff) as u8);
    out.push(((x >> 16) & 0xff) as u8);
    out.push(((x >> 24) & 0xff) as u8);
    assert(out@ =~= old(out)@ + u32_bytes(x));
}

/// A `u64` at the front of `b`, and the bytes after it.
pub open spec fn parse_u64(b: Seq<u8>) -> Option<(u64, Seq<u8>)> {
    if b.len() < 8 {
        None
    } else {
        Some((u64_of(b.take(8)), b.skip(8)))
    }
}

/// A `u32` at the front of `b`, and the bytes after it.
pub open spec fn parse_u32(b: Seq<u8>) -> Option<(u32, Seq<u8>)> {
    if b.len() < 4 {
        None
    } else {
        Some((u32_of(b.take(4)), b.skip(4)))
    }
}

/// Reads a `u64` at `pos`.
pub fn read_u64(b: &Vec<u8>, pos: usize) -> (r: Option<(u64, usize)>)
    requires
        pos <= b@.len(),
    ensures
        match r {
            Some((v, p)) => pos <= p <= b@.len() && parse_u64(b@.skip(pos as int)) == Some(
                (v, b@.skip(p as int)),
            ),
            None => parse_u64(b@.skip(pos as int)) is None,
        },
{
    if b.len() - pos < 8 {
        return None;
    }
    let v: u64 = (b[pos] as u64) | ((b[pos + 1] as u64) << 8) | ((b[pos + 2] as u64) << 16) | ((
    b[pos + 3] as u64) << 24) | ((b[pos + 4] as u64) << 32) | ((b[pos + 5] as u64) << 40) | ((
    b[pos + 6] as u64) << 48) | ((b[pos + 7] as u64) << 56);
    let ghost rest = b@.skip(pos as int);
    assert(rest.take(8) =~= b@.subrange(pos as int, pos + 8));
    assert(rest.skip(8) =~= b@.skip(pos + 8));
    Some((v, pos + 8))
}

/// Reads a `u32` at `pos`.
pub fn read_u32(b: &Vec<u8>, pos: usize) -> (r: Option<(u32, usize)>)
    requires
        pos <= b@.len(),
    ensures
        match r {
            Some((v, p)) => pos <= p <= b@.len() && parse_u32(b@.skip(pos as int)) == Some(
                (v, b@.skip(p as int)),
            ),
            None => parse_u32(b@.skip(pos as int)) is None,
        },
{
    if b.len() - pos < 4 {
        return None;
    }
    let v: u32 = (b[pos] as u32) | ((b[pos + 1] as u32) << 8) | ((b[pos + 2] as u32) << 16) | ((
    b[pos + 3] as u32) << 24);
    let ghost rest = b@.skip(pos as int);
    assert(rest.take(4) =~= b@.subrange(pos as int, pos + 4));
    assert(rest.skip(4) =~= b@.skip(pos + 4));
    Some((v, pos + 4))
}

proof fn lemma_parse_u64(x: u64, rest: Seq<u8>)
    ensures
        parse_u64(u64_bytes(x) + rest) == Some((x, rest)),
{
    let b = u64_bytes(x) + rest;
    assert(b.take(8) =~= u64_bytes(x));
    assert(b.skip(8) =~= rest);
    lemma_u64_round_trip(x);
}

proof fn lemma_parse_u32(x: u32, rest: Seq<u8>)
    ensures
        parse_u32(u32_bytes(x) + rest) == Some((x, rest)),
{
    let b = u32_bytes(x) + rest;
    assert(b.take(4) =~= u32_bytes(x));
    assert(b.skip(4) =~= rest);
    lemma_u32_round_trip(x);
}

/// A string as stored: its byte length, then its UTF-8 bytes.
pub open spec fn string_bytes(s: Seq<char>) -> Seq<u8> {
    u64_bytes(encode_utf8(s).len() as u64) + encode_utf8(s)
}

/// A string at the front of `b`, and the bytes after it.
pub open spec fn parse_string(b: Seq<u8>) -> Option<(Seq<char>, Seq<u8>)> {
    match parse_u64(b) {
        None => None,
        Some((n, r)) => if r.len() < n || !valid_utf8(r.take(n as int)) {
            None
        } else {
            Some((decode_utf8(r.take(n as int)), r.skip(n as int)))
        },
    }
}

/// A string whose encoding fits the format.
pub open spec fn string_fits(s: Seq<char>) -> bool {
    encode_utf8(s).len() <= u64::MAX
}

proof fn lemma_parse_string(s: Seq<char>, rest: Seq<u8>)
    requires
        string_fits(s),
    ensures
        parse_string(string_bytes(s) + rest) == Some((s, rest)),
{
    let e = encode_utf8(s);
    let n = e.len() as u64;
    assert(string_bytes(s) + rest =~= u64_bytes(n) + (e + rest));
    lemma_parse_u64(n, e + rest);
    assert((e + rest).take(n as int) =~= e);
    assert((e + rest).skip(n as int) =~= rest);
    encode_utf8_valid_utf8(s);
    encode_utf8_decode_utf8(s);
}

/// Appends a string.
pub fn write_string(out: &mut Vec<u8>, s: &str)
    ensures
        final(out)@ == old(out)@ + string_bytes(s@),
        string_fits(s@),
{
    let bytes = s.as_bytes();
    write_u64(out, bytes.len() as u64);
    let ghost start = out@;
    let mut i: usize = 0;
    while i < bytes.len()
        invariant
            bytes@ == encode_utf8(s@),
            0 <= i <= bytes@.len(),
            out@ == start + bytes@.take(i as int),
        decreases bytes@.len() - i,
    {
        out.push(bytes[i]);
        assert(out@ =~= start + bytes@.take(i + 1));
        i = i + 1;
    }
    assert(bytes@.take(bytes@.len() as int) =~= bytes@);
    assert(out@ =~= old(out)@ + string_bytes(s@));
}

/// Relies on `String::from_utf8`: it succeeds exactly on valid UTF-8, and
/// then holds the characters those bytes encode.
#[verifier::external_body]
fn string_from_utf8(bytes: Vec<u8>) -> (r: Option<String>)
    ensures
        r is Some <==> valid_utf8(bytes@),
        r matches Some(s) ==> s@ == decode_utf8(bytes@),
{
    String::from_utf8(bytes).ok()
}

/// Reads a string at `pos`.
pub fn read_string(b: &Vec<u8>, pos: usize) -> (r: Option<(String, usize)>)
    requires
        pos <= b@.len(),
    ensures
        match r {
            Some((s, p)) => pos <= p <= b@.len() && parse_string(b@.skip(pos as int)) == Some(
                (s@, b@.skip(p as int)),
            ),
            None => parse_string(b@.skip(pos as int)) is None,
        },
{
    let (n, start) = match read_u64(b, pos) {
        None => {
            return None;
        },
        Some(x) => x,
    };
    let ghost r = b@.skip(start as int);
    if ((b.len() - start) as u64) < n {
        return None;
    }
    let end = start + n as usize;
    let mut bytes: Vec<u8> = Vec::new();
    let mut i: usize = start;
    while i < end
        invariant
            start <= i <= end <= b@.len(),
            bytes@ == b@.subrange(start as int, i as int),
        decreases end - i,
    {
        bytes.push(b[i]);
        assert(bytes@ =~= b@.subrange(start as int, i + 1));
        i = i + 1;
    }
    assert(r.take(n as int) =~= bytes@);
    assert(r.skip(n as int) =~= b@.skip(end as int));
    match string_from_utf8(bytes) {
        None => None,
        Some(s) => Some((s, end)),
    }
}

/// The components of a vector, four bytes each.
pub open spec fn components_bytes(v: Seq<u32>) -> Seq<u8>
    decreases v.len(),
{
    if v.len() == 0 {
        Seq::empty()
    } else {
        components_bytes(v.drop_last()) + u32_bytes(v.last())
    }
}

/// A vector as stored: its length, then its components.
pub open spec fn vector_bytes(v: Seq<u32>) -> Seq<u8> {
    u64_bytes(v.len() as u64) + components_bytes(v)
}

/// `n` components at the front of `b`, and the bytes after them.
pub open spec fn parse_components(b: Seq<u8>, n: nat) -> Option<(Seq<u32>, Seq<u8>)>
    decreases n,
{
    if n == 0 {
        Some((Seq::empty(), b))
    } else {
        match parse_components(b, (n - 1) as nat) {
            None => None,
            Some((v, r)) => match parse_u32(r) {
                None => None,
                Some((x, r2)) => Some((v.push(x), r2)),
            },
        }
    }
}

/// A vector at the front of `b`, and the bytes after it.
pub open spec fn parse_vector(b: Seq<u8>) -> Option<(Seq<u32>, Seq<u8>)> {
    match parse_u64(b) {
        None => None,
        Some((n, r)) => parse_components(r, n as nat),
    }
}

proof fn lemma_parse_components(v: Seq<u32>, rest: Seq<u8>)
    ensures
        parse_components(components_bytes(v) + rest, v.len()) == Some((v, rest)),
    decreases v.len(),
{
    if v.len() > 0 {
        let init = v.drop_last();
        let tail = u32_bytes(v.last()) + rest;
        assert(components_bytes(v) + rest =~= components_bytes(init) + tail);
        lemma_parse_components(init, tail);
        lemma_parse_u32(v.last(), rest);
        assert(init.push(v.last()) =~= v);
    }
}

proof fn lemma_parse_components_none(b: Seq<u8>, i: nat, n: nat)
    requires
        i <= n,
        parse_components(b, i) is None,
    ensures
        parse_components(b, n) is None,
    decreases n - i,
{
    if i < n {
        lemma_parse_components_none(b, i, (n - 1) as nat);
    }
}

/// Appends a vector.
pub fn write_vector(out: &mut Vec<u8>, v: &Vec<u32>)
    ensures
        final(out)@ == old(out)@ + vector_bytes(v@),
        v@.len() <= u64::MAX,
{
    write_u64(out, v.len() as u64);
    let ghost start = out@;
    let mut i: usize = 0;
    while i < v.len()
        invariant
            0 <= i <= v@.len(),
            out@ == start + components_bytes(v@.take(i as int)),
        decreases v@.len() - i,
    {
        write_u32(out, v[i]);
        assert(v@.take(i + 1).drop_last() =~= v@.take(i as int));
        assert(out@ =~= start + components_bytes(v@.take(i + 1)));
        i = i + 1;
    }
    assert(v@.take(v@.len() as int) =~= v@);
    assert(out@ =~= old(out)@ + vector_bytes(v@));
}

/// Reads a vector at `pos`.
pub fn read_vector(b: &Vec<u8>, pos: usize) -> (r: Option<(Vec<u32>, usize)>)
    requires
        pos <= b@.len(),
    ensures
        match r {
            Some((v, p)) => pos <= p <= b@.len() && parse_vector(b@.skip(pos as int)) == Some(
                (v@, b@.skip(p as int)),
            ),
            None => parse_vector(b@.skip(pos as int)) is None,
        },
{
    let (n, start) = match read_u64(b, pos) {
        None => {
            return None;
        },
        Some(x) => x,
    };
    let mut v: Vec<u32> = Vec::new();
    let mut p = start;
    let mut i: u64 = 0;
    while i < n
        invariant
            pos <= start <= p <= b@.len(),
            0 <= i <= n,
            parse_u64(b@.skip(pos as int)) == Some((n, b@.skip(start as int))),
            parse_components(b@.skip(start as int), i as nat) == Some((v@, b@.skip(p as int))),
        decreases n - i,
    {
        match read_u32(b, p) {
            None => {
                proof {
                    lemma_parse_components_none(b@.skip(start as int), (i + 1) as nat, n as nat);
                }
                return None;
            },
            Some((x, next)) => {
                v.push(x);
                p = next;
            },
        }
        i = i + 1;
    }
    Some((v, p))
}

/// Metadata entries: each key and value as strings.
pub open spec fn pairs_bytes(ps: PairsView) -> Seq<u8>
    decreases ps.len(),
{
    if ps.len() == 0 {
        Seq::empty()
    } else {
        pairs_bytes(ps.drop_last()) + string_bytes(ps.last().0) + string_bytes(ps.last().1)
    }
}

/// Metadata as stored.
pub open spec fn metadata_bytes(m: Option<PairsView>) -> Seq<u8> {
    match m {
        None => seq![0u8],
        Some(ps) => seq![1u8] + u64_bytes(ps.len() as u64) + pairs_bytes(ps),
    }
}

/// `n` metadata entries at the front of `b`, and the bytes after them.
pub open spec fn parse_pairs(b: Seq<u8>, n: nat) -> Option<(PairsView, Seq<u8>)>
    decreases n,
{
    if n == 0 {
        Some((Seq::empty(), b))
    } else {
        match parse_pairs(b, (n - 1) as nat) {
            None => None,
            Some((ps, r)) => match parse_string(r) {
                None => None,
                Some((k, r2)) => match parse_string(r2) {
                    None => None,
                    Some((v, r3)) => Some((ps.push((k, v)), r3)),
                },
            },
        }
    }
}

/// Metadata at the front of `b`, and the bytes after it.
pub open spec fn parse_metadata(b: Seq<u8>) -> Option<(Option<PairsView>, Seq<u8>)> {
    if b.len() == 0 {
        None
    } else if b[0] == 0 {
        Some((None, b.skip(1)))
    } else if b[0] == 1 {
        match parse_u64(b.skip(1)) {
            None => None,
            Some((n, r)) => match parse_pairs(r, n as nat) {
                None => None,
                Some((ps, r2)) => Some((Some(ps), r2)),
            },
        }
    } else {
        None
    }
}

/// Every key and value fits the format.
pub open spec fn pairs_fit(ps: PairsView) -> bool {
    forall|i: int| 0 <= i < ps.len() ==> string_fits(ps[i].0) && string_fits(ps[i].1)
}

proof fn lemma_parse_pairs(ps: PairsView, rest: Seq<u8>)
    requires
        pairs_fit(ps),
    ensures
        parse_pairs(pairs_bytes(ps) + rest, ps.len()) == Some((ps, rest)),
    decreases ps.len(),
{
    if ps.len() > 0 {
        let init = ps.drop_last();
        let (k, v) = ps.last();
        let tail = string_bytes(k) + (string_bytes(v) + rest);
        assert(pairs_bytes(ps) + rest =~= pairs_bytes(init) + tail);
        lemma_parse_pairs(init, tail);
        lemma_parse_string(k, string_bytes(v) + rest);
        lemma_parse_string(v, rest);
        assert(init.push((k, v)) =~= ps);
    }
}

proof fn lemma_parse_pairs_none(b: Seq<u8>, i: nat, n: nat)
    requires
        i <= n,
        parse_pairs(b, i) is None,
    ensures
        parse_pairs(b, n) is None,
    decreases n - i,
{
    if i < n {
        lemma_parse_pairs_none(b, i, (n - 1) as nat);
    }
}

proof fn lemma_parse_metadata(m: Option<PairsView>, rest: Seq<u8>)
    requires
        m matches Some(ps) ==> pairs_fit(ps) && ps.len() <= u64::MAX,
    ensures
        parse_metadata(metadata_bytes(m) + rest) == Some((m, rest)),
{
    let b = metadata_bytes(m) + rest;
    match m {
        None => {
            assert(b.skip(1) =~= rest);
        },
        Some(ps) => {
            let n = ps.len() as u64;
            assert(b.skip(1) =~= u64_bytes(n) + (pairs_bytes(ps) + rest));
            lemma_parse_u64(n, pairs_bytes(ps) + rest);
            lemma_parse_pairs(ps, rest);
        },
    }
}

/// Appends metadata.
pub fn write_metadata(out: &mut Vec<u8>, m: &Option<Vec<(String, String)>>)
    ensures
        final(out)@ == old(out)@ + metadata_bytes(metadata_view(*m)),
        metadata_view(*m) matches Some(ps) ==> pairs_fit(ps) && ps.len() <= u64::MAX,
{
    match m {
        None => {
            out.push(0u8);
            assert(out@ =~= old(out)@ + metadata_bytes(metadata_view(*m)));
        },
        Some(ps) => {
            let ghost pv = pairs_view(ps@);
            out.push(1u8);
            write_u64(out, ps.len() as u64);
            let ghost start = out@;
            let mut i: usize = 0;
            while i < ps.len()
                invariant
                    pv == pairs_view(ps@),
                    0 <= i <= ps@.len(),
                    out@ == start + pairs_bytes(pv.take(i as int)),
                    pairs_fit(pv.take(i as int)),
                decreases ps@.len() - i,
            {
                write_string(out, ps[i].0.as_str());
                write_string(out, ps[i].1.as_str());
                assert(pv.take(i + 1).drop_last() =~= pv.take(i as int));
                assert(out@ =~= start + pairs_bytes(pv.take(i + 1)));
                assert(pairs_fit(pv.take(i + 1))) by {
                    let t = pv.take(i + 1);
                    assert forall|j: int| 0 <= j < t.len() implies string_fits((#[trigger] t[j]).0)
                        && string_fits(t[j].1) by {
                        if j < i {
                            assert(t[j] == pv.take(i as int)[j]);
                        }
                    }
                }
                i = i + 1;
            }
            assert(pv.take(pv.len() as int) =~= pv);
            assert(out@ =~= old(out)@ + metadata_bytes(metadata_view(*m)));
        },
    }
}

/// Reads metadata at `pos`.
pub fn read_metadata(b: &Vec<u8>, pos: usize) -> (r: Option<(Option<Vec<(String, String)>>, usize)>)
    requires
        pos <= b@.len(),
    ensures
        match r {
            Some((m, p)) => pos <= p <= b@.len() && parse_metadata(b@.skip(pos as int)) == Some(
                (metadata_view(m), b@.skip(p as int)),
            ),
            None => parse_metadata(b@.skip(pos as int)) is None,
        },
{
    let ghost rest = b@.skip(pos as int);
    if pos >= b.len() {
        return None;
    }
    let tag = b[pos];
    assert(rest[0] == tag);
    assert(rest.skip(1) =~= b@.skip(pos + 1));
    if tag == 0 {
        return Some((None, pos + 1));
    }
    if tag != 1 {
        return None;
    }
    let (n, start) = match read_u64(b, pos + 1) {
        None => {
            return None;
        },
        Some(x) => x,
    };
    let mut ps: Vec<(String, String)> = Vec::new();
    let mut p = start;
    let mut i: u64 = 0;
    while i < n
        invariant
            pos < start <= p <= b@.len(),
            0 <= i <= n,
            rest == b@.skip(pos as int),
            rest[0] == 1,
            rest.skip(1) == b@.skip(pos + 1),
            parse_u64(b@.skip(pos + 1)) == Some((n, b@.skip(start as int))),
            parse_pairs(b@.skip(start as int), i as nat) == Some((pairs_view(ps@), b@.skip(p as int))),
            ps@.len() == i,
        decreases n - i,
    {
        let (k, after_key) = match read_string(b, p) {
            None => {
                proof {
                    lemma_parse_pairs_none(b@.skip(start as int), (i + 1) as nat, n as nat);
                }
                return None;
            },
            Some(x) => x,
        };
        let (v, after_value) = match read_string(b, after_key) {
            None => {
                proof {
                    lemma_parse_pairs_none(b@.skip(start as int), (i + 1) as nat, n as nat);
                }
                return None;
            },
            Some(x) => x,
        };
        let ghost before = ps@;
        ps.push((k, v));
        assert(pairs_view(ps@) =~= pairs_view(before).push((k@, v@)));
        p = after_value;
        i = i + 1;
    }
    Some((Some(ps), p))
}

/// An embedding as stored: identifier, vector, metadata.
pub open spec fn embedding_bytes(e: EmbeddingView) -> Seq<u8> {
    string_bytes(e.id) + vector_bytes(e.vector) + metadata_bytes(e.metadata)
}

/// An embedding at the front of `b`, and the bytes after it.
pub open spec fn parse_embedding(b: Seq<u8>) -> Option<(EmbeddingView, Seq<u8>)> {
    match parse_string(b) {
        None => None,
        Some((id, r)) => match parse_vector(r) {
            None => None,
            Some((vector, r2)) => match parse_metadata(r2) {
                None => None,
                Some((metadata, r3)) => Some((EmbeddingView { id, vector, metadata }, r3)),
            },
        },
    }
}

/// Every length in the embedding fits the format.
pub open spec fn embedding_fits(e: EmbeddingView) -> bool {
    &&& string_fits(e.id)
    &&& e.vector.len() <= u64::MAX
    &&& e.metadata matches Some(ps) ==> pairs_fit(ps) && ps.len() <= u64::MAX
}

proof fn lemma_parse_embedding(e: EmbeddingView, rest: Seq<u8>)
    requires
        embedding_fits(e),
    ensures
        parse_embedding(embedding_bytes(e) + rest) == Some((e, rest)),
{
    let m = metadata_bytes(e.metadata) + rest;
    let v = vector_bytes(e.vector) + m;
    assert(embedding_bytes(e) + rest =~= string_bytes(e.id) + v);
    lemma_parse_string(e.id, v);
    let n = e.vector.len() as u64;
    assert(v =~= u64_bytes(n) + (components_bytes(e.vector) + m));
    lemma_parse_u64(n, components_bytes(e.vector) + m);
    lemma_parse_components(e.vector, m);
    lemma_parse_metadata(e.metadata, rest);
}

/// Embeddings as stored, one after the other.
pub open spec fn embeddings_bytes(es: Seq<EmbeddingView>) -> Seq<u8>
    decreases es.len(),
{
    if es.len() == 0 {
        Seq::empty()
    } else {
        embeddings_bytes(es.drop_last()) + embedding_bytes(es.last())
    }
}

/// `n` embeddings at the front of `b`, and the bytes after them.
pub open spec fn parse_embeddings(b: Seq<u8>, n: nat) -> Option<(Seq<EmbeddingView>, Seq<u8>)>
    decreases n,
{
    if n == 0 {
        Some((Seq::empty(), b))
    } else {
        match parse_embeddings(b, (n - 1) as nat) {
            None => None,
            Some((es, r)) => match parse_embedding(r) {
                None => None,
                Some((e, r2)) => Some((es.push(e), r2)),
            },
        }
    }
}

proof fn lemma_parse_embeddings(es: Seq<EmbeddingView>, rest: Seq<u8>)
    requires
        forall|i: int| 0 <= i < es.len() ==> embedding_fits(#[trigger] es[i]),
    ensures
        parse_embeddings(embeddings_bytes(es) + rest, es.len()) == Some((es, rest)),
    decreases es.len(),
{
    if es.len() > 0 {
        let init = es.drop_last();
        let tail = embedding_bytes(es.last()) + rest;
        assert(embeddings_bytes(es) + rest =~= embeddings_bytes(init) + tail);
        assert forall|i: int| 0 <= i < init.len() implies embedding_fits(#[trigger] init[i]) by {
            assert(init[i] == es[i]);
        }
        lemma_parse_embeddings(init, tail);
        lemma_parse_embedding(es.last(), rest);
        assert(init.push(es.last()) =~= es);
    }
}

proof fn lemma_parse_embeddings_none(b: Seq<u8>, i: nat, n: nat)
    requires
        i <= n,
        parse_embeddings(b, i) is None,
    ensures
        parse_embeddings(b, n) is None,
    decreases n - i,
{
    if i < n {
        lemma_parse_embeddings_none(b, i, (n - 1) as nat);
    }
}

/// The stored tag of a metric.
pub open spec fn distance_tag(d: Distance) -> u32 {
    match d {
        Distance::Cosine => 0,
        Distance::Euclidean => 1,
        Distance::Dot => 2,
    }
}

/// The metric of a stored tag.
pub open spec fn distance_of_tag(t: u32) -> Option<Distance> {
    if t == 0 {
        Some(Distance::Cosine)
    } else if t == 1 {
        Some(Distance::Euclidean)
    } else if t == 2 {
        Some(Distance::Dot)
    } else {
        None
    }
}

/// A collection as stored: dimension, metric, number of embeddings, and the
/// embeddings.
pub open spec fn collection_bytes(c: CollectionView) -> Seq<u8> {
    u64_bytes(c.dimension as u64) + u32_bytes(distance_tag(c.distance)) + u64_bytes(
        c.embeddings.len() as u64,
    ) + embeddings_bytes(c.embeddings)
}

/// A collection at the front of `b` (not dirty), and the bytes after it.
pub open spec fn parse_collection_prefix(b: Seq<u8>) -> Option<(CollectionView, Seq<u8>)> {
    match parse_u64(b) {
        None => None,
        Some((dimension, r)) => match parse_u32(r) {
            None => None,
            Some((tag, r2)) => if dimension > usize::MAX { None } else { match distance_of_tag(tag) {
                None => None,
                Some(distance) => match parse_u64(r2) {
                    None => None,
                    Some((n, r3)) => match parse_embeddings(r3, n as nat) {
                        None => None,
                        Some((embeddings, r4)) => Some(
                            (
                                CollectionView {
                                    dimension: dimension as nat,
                                    distance,
                                    embeddings,
                                    dirty: false,
                                },
                                r4,
                            ),
                        ),
                    },
                },
            } },
        },
    }
}

/// The collection that `b` holds exactly, if any.
pub open spec fn parse_collection(b: Seq<u8>) -> Option<CollectionView> {
    match parse_collection_prefix(b) {
        Some((c, r)) => if r.len() == 0 {
            Some(c)
        } else {
            None
        },
        None => None,
    }
}

/// Every length in the collection fits the format.
pub open spec fn collection_fits(c: CollectionView) -> bool {
    &&& c.dimension <= usize::MAX
    &&& c.embeddings.len() <= u64::MAX
    &&& forall|i: int| 0 <= i < c.embeddings.len() ==> embedding_fits(#[trigger] c.embeddings[i])
}

/// The collection as it reads back: the same, but not dirty.
pub open spec fn as_loaded(c: CollectionView) -> CollectionView {
    CollectionView { dirty: false, ..c }
}

proof fn lemma_parse_collection_prefix(c: CollectionView, rest: Seq<u8>)
    requires
        collection_fits(c),
    ensures
        parse_collection_prefix(collection_bytes(c) + rest) == Some((as_loaded(c), rest)),
{
    let es = embeddings_bytes(c.embeddings) + rest;
    let r2 = u64_bytes(c.embeddings.len() as u64) + es;
    let r = u32_bytes(distance_tag(c.distance)) + r2;
    assert(collection_bytes(c) + rest =~= u64_bytes(c.dimension as u64) + r);
    lemma_parse_u64(c.dimension as u64, r);
    lemma_parse_u32(distance_tag(c.distance), r2);
    lemma_parse_u64(c.embeddings.len() as u64, es);
    lemma_parse_embeddings(c.embeddings, rest);
}

/// Reading back the bytes of a collection gives the collection, with its
/// dirty flag cleared.
pub proof fn lemma_collection_round_trip(c: CollectionView)
    requires
        collection_fits(c),
    ensures
        parse_collection(collection_bytes(c)) == Some(as_loaded(c)),
{
    lemma_parse_collection_prefix(c, Seq::empty());
    assert(collection_bytes(c) + Seq::<u8>::empty() =~= collection_bytes(c));
}

/// Appends an embedding.
pub fn write_embedding(out: &mut Vec<u8>, e: &Embedding)
    ensures
        final(out)@ == old(out)@ + embedding_bytes(e@),
        embedding_fits(e@),
{
    write_string(out, e.id.as_str());
    write_vector(out, &e.vector);
    write_metadata(out, &e.metadata);
    assert(out@ =~= old(out)@ + embedding_bytes(e@));
}

/// Appends a collection.
pub fn write_collection(out: &mut Vec<u8>, c: &Collection)
    ensures
        final(out)@ == old(out)@ + collection_bytes(c@),
        collection_fits(c@),
{
    let ghost es = c@.embeddings;
    write_u64(out, c.dimension as u64);
    let tag: u32 = match c.distance {
        Distance::Cosine => 0,
        Distance::Euclidean => 1,
        Distance::Dot => 2,
    };
    write_u32(out, tag);
    write_u64(out, c.embeddings.len() as u64);
    let ghost start = out@;
    let mut i: usize = 0;
    while i < c.embeddings.len()
        invariant
            es == c@.embeddings,
            0 <= i <= es.len(),
            out@ == start + embeddings_bytes(es.take(i as int)),
            forall|j: int| 0 <= j < i ==> embedding_fits(#[trigger] es[j]),
        decreases es.len() - i,
    {
        write_embedding(out, &c.embeddings[i]);
        assert(es.take(i + 1).drop_last() =~= es.take(i as int));
        assert(out@ =~= start + embeddings_bytes(es.take(i + 1)));
        i = i + 1;
    }
    assert(es.take(es.len() as int) =~= es);
    assert(out@ =~= old(out)@ + collection_bytes(c@));
}

/// The bytes of a collection record.
pub fn encode_collection(c: &Collection) -> (r: Vec<u8>)
    ensures
        r@ == collection_bytes(c@),
        collection_fits(c@),
{
    let mut out: Vec<u8> = Vec::new();
    write_collection(&mut out, c);
    assert(out@ =~= collection_bytes(c@));
    out
}

/// Reads an embedding at `pos`.
pub fn read_embedding(b: &Vec<u8>, pos: usize) -> (r: Option<(Embedding, usize)>)
    requires
        pos <= b@.len(),
    ensures
        match r {
            Some((e, p)) => pos <= p <= b@.len() && parse_embedding(b@.skip(pos as int)) == Some(
                (e@, b@.skip(p as int)),
            ),
            None => parse_embedding(b@.skip(pos as int)) is None,
        },
{
    let (id, at_vector) = match read_string(b, pos) {
        None => {
            return None;
        },
        Some(x) => x,
    };
    let (vector, at_metadata) = match read_vector(b, at_vector) {
        None => {
            return None;
        },
        Some(x) => x,
    };
    let (metadata, end) = match read_metadata(b, at_metadata) {
        None => {
            return None;
        },
        Some(x) => x,
    };
    Some((Embedding { id, vector, metadata }, end))
}

/// Reads a collection at `pos`; it comes back not dirty.
pub fn read_collection(b: &Vec<u8>, pos: usize) -> (r: Option<(Collection, usize)>)
    requires
        pos <= b@.len(),
    ensures
        match r {
            Some((c, p)) => pos <= p <= b@.len() && parse_collection_prefix(b@.skip(pos as int))
                == Some((c@, b@.skip(p as int))),
            None => parse_collection_prefix(b@.skip(pos as int)) is None,
        },
{
    let (dimension, at_metric) = match read_u64(b, pos) {
        None => {
            return None;
        },
        Some(x) => x,
    };
    let (tag, at_count) = match read_u32(b, at_metric) {
        None => {
            return None;
        },
        Some(x) => x,
    };
    let distance = if tag == 0 {
        Distance::Cosine
    } else if tag == 1 {
        Distance::Euclidean
    } else if tag == 2 {
        Distance::Dot
    } else {
        return None;
    };
    let (n, start) = match read_u64(b, at_count) {
        None => {
            return None;
        },
        Some(x) => x,
    };
    if dimension > usize::MAX as u64 {
        return None;
    }
    let mut embeddings: Vec<Embedding> = Vec::new();
    let mut p = start;
    let mut i: u64 = 0;
    while i < n
        invariant
            pos <= start <= p <= b@.len(),
            0 <= i <= n,
            parse_u64(b@.skip(pos as int)) == Some((dimension, b@.skip(at_metric as int))),
            parse_u32(b@.skip(at_metric as int)) == Some((tag, b@.skip(at_count as int))),
            distance_of_tag(tag) == Some(distance),
            dimension <= usize::MAX,
            parse_u64(b@.skip(at_count as int)) == Some((n, b@.skip(start as int))),
            parse_embeddings(b@.skip(start as int), i as nat) == Some(
                (views(embeddings@), b@.skip(p as int)),
            ),
        decreases n - i,
    {
        match read_embedding(b, p) {
            None => {
                proof {
                    lemma_parse_embeddings_none(b@.skip(start as int), (i + 1) as nat, n as nat);
                }
                return None;
            },
            Some((e, next)) => {
                let ghost before = embeddings@;
                embeddings.push(e);
                assert(views(embeddings@) =~= views(before).push(e@));
                p = next;
            },
        }
        i = i + 1;
    }
    let c = Collection { dimension: dimension as usize, distance, embeddings, dirty: false };
    Some((c, p))
}

/// The collection that `b` holds, read back not dirty; `None` where `b` is
/// not exactly one collection record.
pub fn decode_collection(b: &Vec<u8>) -> (r: Option<Collection>)
    ensures
        match r {
            Some(c) => parse_collection(b@) == Some(c@),
            None => parse_collection(b@) is None,
        },
{
    assert(b@.skip(0) =~= b@);
    match read_collection(b, 0) {
        None => None,
        Some((c, p)) => {
            if p == b.len() {
                Some(c)
            } else {
                None
            }
        },
    }
}

/// Named collections, one after the other.
pub open spec fn named_bytes(es: Seq<(Seq<char>, CollectionView)>) -> Seq<u8>
    decreases es.len(),
{
    if es.len() == 0 {
        Seq::empty()
    } else {
        named_bytes(es.drop_last()) + string_bytes(es.last().0) + collection_bytes(es.last().1)
    }
}

/// A whole database as stored in a single file: the number of collections,
/// then each name and collection.
pub open spec fn database_bytes(es: Seq<(Seq<char>, CollectionView)>) -> Seq<u8> {
    u64_bytes(es.len() as u64) + named_bytes(es)
}

/// `n` named collections at the front of `b`, and the bytes after them.
pub open spec fn parse_named(b: Seq<u8>, n: nat) -> Option<(Seq<(Seq<char>, CollectionView)>, Seq<u8>)>
    decreases n,
{
    if n == 0 {
        Some((Seq::empty(), b))
    } else {
        match parse_named(b, (n - 1) as nat) {
            None => None,
            Some((es, r)) => match parse_string(r) {
                None => None,
                Some((name, r2)) => match parse_collection_prefix(r2) {
                    None => None,
                    Some((c, r3)) => Some((es.push((name, c)), r3)),
                },
            },
        }
    }
}

/// The named collections that `b` holds exactly, if any.
pub open spec fn parse_database(b: Seq<u8>) -> Option<Seq<(Seq<char>, CollectionView)>> {
    match parse_u64(b) {
        None => None,
        Some((n, r)) => match parse_named(r, n as nat) {
            Some((es, r2)) => if r2.len() == 0 {
                Some(es)
            } else {
                None
            },
            None => None,
        },
    }
}

/// Every name and collection fits the format.
pub open spec fn named_fit(es: Seq<(Seq<char>, CollectionView)>) -> bool {
    forall|i: int| 0 <= i < es.len() ==> string_fits((#[trigger] es[i]).0) && collection_fits(es[i].1)
}

/// The named collections as they read back, none dirty.
pub open spec fn named_loaded(es: Seq<(Seq<char>, CollectionView)>) -> Seq<(Seq<char>, CollectionView)> {
    es.map_values(|e: (Seq<char>, CollectionView)| (e.0, as_loaded(e.1)))
}

#[verifier::rlimit(50)]
proof fn lemma_parse_named(es: Seq<(Seq<char>, CollectionView)>, rest: Seq<u8>)
    requires
        named_fit(es),
    ensures
        parse_named(named_bytes(es) + rest, es.len()) == Some((named_loaded(es), rest)),
    decreases es.len(),
{
    if es.len() > 0 {
        let init = es.drop_last();
        let (name, c) = es.last();
        let tail = string_bytes(name) + (collection_bytes(c) + rest);
        assert(named_bytes(es) + rest =~= named_bytes(init) + tail);
        assert forall|i: int| 0 <= i < init.len() implies string_fits((#[trigger] init[i]).0)
            && collection_fits(init[i].1) by {
            assert(init[i] == es[i]);
        }
        lemma_parse_named(init, tail);
        lemma_parse_string(name, collection_bytes(c) + rest);
        lemma_parse_collection_prefix(c, rest);
        assert(named_loaded(init).push((name, as_loaded(c))) =~= named_loaded(es));
    }
}

proof fn lemma_parse_named_none(b: Seq<u8>, i: nat, n: nat)
    requires
        i <= n,
        parse_named(b, i) is None,
    ensures
        parse_named(b, n) is None,
    decreases n - i,
{
    if i < n {
        lemma_parse_named_none(b, i, (n - 1) as nat);
    }
}

/// Reading back the bytes of a whole database gives its named collections,
/// in order, none dirty.
pub proof fn lemma_database_round_trip(es: Seq<(Seq<char>, CollectionView)>)
    requires
        named_fit(es),
        es.len() <= u64::MAX,
    ensures
        parse_database(database_bytes(es)) == Some(named_loaded(es)),
{
    let n = es.len() as u64;
    lemma_parse_u64(n, named_bytes(es));
    lemma_parse_named(es, Seq::empty());
    assert(named_bytes(es) + Seq::<u8>::empty() =~= named_bytes(es));
}

/// The views of named collections.
pub open spec fn named_views(v: Seq<(String, Collection)>) -> Seq<(Seq<char>, CollectionView)> {
    v.map_values(|e: (String, Collection)| (e.0@, e.1@))
}

/// The named collections of a whole-database file, read back not dirty;
/// `None` where `b` is not exactly such a record.
pub fn decode_database(b: &Vec<u8>) -> (r: Option<Vec<(String, Collection)>>)
    ensures
        match r {
            Some(v) => parse_database(b@) == Some(named_views(v@)),
            None => parse_database(b@) is None,
        },
{
    assert(b@.skip(0) =~= b@);
    let (n, start) = match read_u64(b, 0) {
        None => {
            return None;
        },
        Some(x) => x,
    };
    let mut v: Vec<(String, Collection)> = Vec::new();
    let mut p = start;
    let mut i: u64 = 0;
    while i < n
        invariant
            start <= p <= b@.len(),
            0 <= i <= n,
            parse_u64(b@) == Some((n, b@.skip(start as int))),
            parse_named(b@.skip(start as int), i as nat) == Some((named_views(v@), b@.skip(p as int))),
        decreases n - i,
    {
        let (name, at_collection) = match read_string(b, p) {
            None => {
                proof {
                    lemma_parse_named_none(b@.skip(start as int), (i + 1) as nat, n as nat);
                }
                return None;
            },
            Some(x) => x,
        };
        let (c, after_collection) = match read_collection(b, at_collection) {
            None => {
                proof {
                    lemma_parse_named_none(b@.skip(start as int), (i + 1) as nat, n as nat);
                }
                return None;
            },
            Some(x) => x,
        };
        let ghost before = v@;
        v.push((name, c));
        assert(named_views(v@) =~= named_views(before).push((name@, c@)));
        p = after_collection;
        i = i + 1;
    }
    if p == b.len() {
        Some(v)
    } else {
        None
    }
}

} // verus!
