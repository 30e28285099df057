//! The metadata record of one logical file and its binary archive codec:
//! a fixed-schema, length-prefixed layout (name, size, content type,
//! timestamp, ordered chunk-hash list), validated structurally on load — a corrupt
//! archive is rejected, never misread. The archive bytes are what the
//! encryption collaborator seals at rest.

use crate::chunking::append_bytes;
use crate::errors::CoreError;
use crate::store::views_of;
use vstd::prelude::*;
use vstd::slice::slice_subrange;
use vstd::string::*;
use vstd::utf8::{decode_utf8, decode_utf8_encode_utf8, encode_utf8, valid_utf8};

verus! {

/// The metadata record of one logical file. `time` is the ingest timestamp
/// as UTC seconds; `chunks` is the ordered hash list whose chunks, decoded
/// and concatenated in order, are the file's bytes.
#[derive(Debug, Clone, PartialEq, Eq)]
pub struct Metadata {
    pub name: String,
    pub size: u64,
    pub file_type: String,
    pub time: i64,
    pub chunks: Vec<String>,
}

/// Eight little-endian bytes of a 64-bit value.
pub open spec fn enc_u64(x: u64) -> Seq<u8> {
    seq![
        (x & 0xff) as u8,
        ((x >> 8) & 0xff) as u8,
        ((x >> 16) & 0xff) as u8,
        ((x >> 24) & 0xff) as u8,
        ((x >> 32) & 0xff) as u8,
        ((x >> 40) & 0xff) as u8,
        ((x >> 48) & 0xff) as u8,
        ((x >> 56) & 0xff) as u8,
    ]
}

/// A length-prefixed string: its UTF-8 byte count, then its UTF-8 bytes.
pub open spec fn enc_str(s: Seq<char>) -> Seq<u8> {
    enc_u64(encode_utf8(s).len() as u64) + encode_utf8(s)
}

/// The strings of a list, length-prefixed, in order.
pub open spec fn enc_str_list(l: Seq<Seq<char>>) -> Seq<u8>
    decreases l.len(),
{
    if l.len() == 0 {
        Seq::empty()
    } else {
        enc_str(l[0]) + enc_str_list(l.skip(1))
    }
}

/// The archive layout of a metadata record, in the record's field order:
/// name, size, content type, time, then the chunk count and the chunk
/// hashes in order.
pub open spec fn enc_meta(
    name: Seq<char>,
    size: u64,
    file_type: Seq<char>,
    time: i64,
    chunks: Seq<Seq<char>>,
) -> Seq<u8> {
    enc_str(name) + enc_u64(size) + enc_str(file_type) + enc_u64(time as u64) + enc_u64(
        chunks.len() as u64,
    ) + enc_str_list(chunks)
}

/// The archive of a metadata record.
pub open spec fn meta_enc(m: &Metadata) -> Seq<u8> {
    enc_meta(m.name@, m.size, m.file_type@, m.time, views_of(m.chunks@))
}

proof fn lemma_enc_str_list_push(l: Seq<Seq<char>>, x: Seq<char>)
    ensures
        enc_str_list(l.push(x)) == enc_str_list(l) + enc_str(x),
    decreases l.len(),
{
    let p = l.push(x);
    if l.len() == 0 {
        assert(p[0] == x);
        assert(p.skip(1) =~= Seq::<Seq<char>>::empty());
        assert(enc_str_list(p) == enc_str(p[0]) + enc_str_list(p.skip(1)));
        assert(enc_str_list(p) =~= enc_str_list(l) + enc_str(x));
    } else {
        assert(p[0] == l[0]);
        assert(p.skip(1) =~= l.skip(1).push(x));
        lemma_enc_str_list_push(l.skip(1), x);
        assert(enc_str_list(p) == enc_str(p[0]) + enc_str_list(p.skip(1)));
        assert(enc_str_list(l) == enc_str(l[0]) + enc_str_list(l.skip(1)));
        assert(enc_str_list(p) =~= enc_str_list(l) + enc_str(x));
    }
}

/// Eight little-endian bytes pin the value down.
proof fn lemma_enc_u64_inj(x: u64, y: u64)
    requires
        enc_u64(x) == enc_u64(y),
    ensures
        x == y,
{
    assert((x & 0xff) as u8 == (y & 0xff) as u8);
    assert(((x >> 8) & 0xff) as u8 == ((y >> 8) & 0xff) as u8);
    assert(((x >> 16) & 0xff) as u8 == ((y >> 16) & 0xff) as u8);
    assert(((x >> 24) & 0xff) as u8 == ((y >> 24) & 0xff) as u8);
    assert(((x >> 32) & 0xff) as u8 == ((y >> 32) & 0xff) as u8);
    assert(((x >> 40) & 0xff) as u8 == ((y >> 40) & 0xff) as u8);
    assert(((x >> 48) & 0xff) as u8 == ((y >> 48) & 0xff) as u8);
    assert(((x >> 56) & 0xff) as u8 == ((y >> 56) & 0xff) as u8);
    assert(x == y) by (bit_vector)
        requires
            (x & 0xff) as u8 == (y & 0xff) as u8,
            ((x >> 8) & 0xff) as u8 == ((y >> 8) & 0xff) as u8,
            ((x >> 16) & 0xff) as u8 == ((y >> 16) & 0xff) as u8,
            ((x >> 24) & 0xff) as u8 == ((y >> 24) & 0xff) as u8,
            ((x >> 32) & 0xff) as u8 == ((y >> 32) & 0xff) as u8,
            ((x >> 40) & 0xff) as u8 == ((y >> 40) & 0xff) as u8,
            ((x >> 48) & 0xff) as u8 == ((y >> 48) & 0xff) as u8,
            ((x >> 56) & 0xff) as u8 == ((y >> 56) & 0xff) as u8,
    ;
}

/// Appends the eight little-endian bytes of `x`.
fn write_u64(out: &mut Vec<u8>, x: u64)
    ensures
        final(out)@ == old(out)@ + enc_u64(x),
{
    out.push((x & 0xff) as u8);
    out.push(((x >> 8) & 0xff) as u8);
    out.push(((x >> 16) & 0xff) as u8);
    out.push(((x >> 24) & 0xff) as u8);
    out.push(((x >> 32) & 0xff) as u8);
    out.push(((x >> 40) & 0xff) as u8);
    out.push(((x >> 48) & 0xff) as u8);
    out.push(((x >> 56) & 0xff) as u8);
    proof {
        assert(final(out)@ =~= old(out)@ + enc_u64(x));
    }
}

/// Reads the 64-bit value whose eight little-endian bytes sit at `off`.
fn read_u64(bytes: &[u8], off: usize) -> (r: u64)
    requires
        off + 8 <= bytes@.len(),
    ensures
        enc_u64(r) == bytes@.subrange(off as int, off as int + 8),
{
    let b0 = bytes[off] as u64;
    let b1 = bytes[off + 1] as u64;
    let b2 = bytes[off + 2] as u64;
    let b3 = bytes[off + 3] as u64;
    let b4 = bytes[off + 4] as u64;
    let b5 = bytes[off + 5] as u64;
    let b6 = bytes[off + 6] as u64;
    let b7 = bytes[off + 7] as u64;
    let r = b0 | (b1 << 8) | (b2 << 16) | (b3 << 24) | (b4 << 32) | (b5 << 40) | (b6 << 48) | (b7
        << 56);
    proof {
        assert((r & 0xff) as u8 == b0 as u8 && ((r >> 8) & 0xff) as u8 == b1 as u8 && ((r >> 16)
            & 0xff) as u8 == b2 as u8 && ((r >> 24) & 0xff) as u8 == b3 as u8 && ((r >> 32) & 0xff)
            as u8 == b4 as u8 && ((r >> 40) & 0xff) as u8 == b5 as u8 && ((r >> 48) & 0xff) as u8
            == b6 as u8 && ((r >> 56) & 0xff) as u8 == b7 as u8) by (bit_vector)
            requires
                b0 < 256 && b1 < 256 && b2 < 256 && b3 < 256 && b4 < 256 && b5 < 256 && b6 < 256
                    && b7 < 256,
                r == b0 | (b1 << 8) | (b2 << 16) | (b3 << 24) | (b4 << 32) | (b5 << 40) | (b6
                    << 48) | (b7 << 56),
        ;
        assert(enc_u64(r) =~= bytes@.subrange(off as int, off as int + 8));
    }
    r
}

/// Appends a length-prefixed string.
fn write_str(out: &mut Vec<u8>, s: &str)
    ensures
        final(out)@ == old(out)@ + enc_str(s@),
{
    let bv = s.as_bytes_vec();
    let n = bv.len();
    write_u64(out, n as u64);
    append_bytes(out, bv.as_slice());
    proof {
        assert(final(out)@ =~= old(out)@ + enc_str(s@));
    }
}

/// Serializes a metadata record into its archive bytes: a pure function of
/// the record's fields.
pub fn encode_metadata(m: &Metadata) -> (r: Vec<u8>)
    ensures
        r@ == meta_enc(m),
{
    let ghost cs = views_of(m.chunks@);
    let mut out: Vec<u8> = Vec::new();
    write_str(&mut out, m.name.as_str());
    write_u64(&mut out, m.size);
    write_str(&mut out, m.file_type.as_str());
    write_u64(&mut out, m.time as u64);
    write_u64(&mut out, m.chunks.len() as u64);
    let ghost head = out@;
    proof {
        assert(cs.take(0) =~= Seq::<Seq<char>>::empty());
        assert(out@ =~= head + enc_str_list(cs.take(0)));
    }
    let mut i: usize = 0;
    while i < m.chunks.len()
        invariant
            i <= m.chunks@.len(),
            cs == views_of(m.chunks@),
            out@ == head + enc_str_list(cs.take(i as int)),
        decreases m.chunks@.len() - i,
    {
        write_str(&mut out, m.chunks[i].as_str());
        proof {
            lemma_enc_str_list_push(cs.take(i as int), cs[i as int]);
            assert(cs.take(i as int).push(cs[i as int]) =~= cs.take(i + 1));
            assert(out@ =~= head + enc_str_list(cs.take(i + 1)));
        }
        i = i + 1;
    }
    proof {
        assert(cs.take(cs.len() as int) =~= cs);
        assert(out@ =~= meta_enc(m));
    }
    out
}

/// Relies on `core::str::from_utf8`: accepts exactly valid UTF-8 and yields
/// the characters the bytes encode.
#[verifier::external_body]
fn bytes_to_string(v: &[u8]) -> (r: Option<String>)
    ensures
        r matches Some(s) ==> valid_utf8(v@) && s@ == decode_utf8(v@),
        valid_utf8(v@) ==> r is Some,
{
    match core::str::from_utf8(v) {
        Ok(s) => Some(s.to_owned()),
        Err(_) => None,
    }
}

/// The bytes are the archive of exactly these field values.
pub open spec fn meta_archive_of(
    bytes: Seq<u8>,
    name: Seq<char>,
    size: u64,
    file_type: Seq<char>,
    time: i64,
    chunks: Seq<Seq<char>>,
) -> bool {
    bytes == enc_meta(name, size, file_type, time, chunks)
}

/// An archived string list splits around any of its entries.
proof fn lemma_enc_str_list_split(cs: Seq<Seq<char>>, i: int)
    requires
        0 <= i < cs.len(),
    ensures
        enc_str_list(cs) == enc_str_list(cs.take(i)) + enc_str(cs[i]) + enc_str_list(
            cs.skip(i + 1),
        ),
    decreases i,
{
    if i == 0 {
        assert(cs.take(0) =~= Seq::<Seq<char>>::empty());
        assert(cs.skip(1) =~= cs.skip(0int + 1));
        assert(enc_str_list(cs) == enc_str(cs[0]) + enc_str_list(cs.skip(1)));
        assert(enc_str_list(cs) =~= enc_str_list(cs.take(0)) + enc_str(cs[0]) + enc_str_list(
            cs.skip(1),
        ));
    } else {
        let rest = cs.skip(1);
        lemma_enc_str_list_split(rest, i - 1);
        assert(rest.take(i - 1) =~= cs.take(i).skip(1));
        assert(rest[i - 1] == cs[i]);
        assert(rest.skip(i) =~= cs.skip(i + 1));
        assert(enc_str_list(cs) == enc_str(cs[0]) + enc_str_list(rest));
        assert(enc_str_list(cs.take(i)) == enc_str(cs.take(i)[0]) + enc_str_list(
            cs.take(i).skip(1),
        ));
        assert(cs.take(i)[0] == cs[0]);
        assert(enc_str_list(cs) =~= enc_str_list(cs.take(i)) + enc_str(cs[i]) + enc_str_list(
            cs.skip(i + 1),
        ));
    }
}

/// Reads one length-prefixed string at `off`: on success the consumed bytes
/// are exactly the string's archive form, and whenever a string's archive
/// form sits at `off`, reading succeeds and yields that very string.
fn read_str(bytes: &[u8], off: usize) -> (r: Result<(String, usize), CoreError>)
    requires
        off <= bytes@.len(),
    ensures
        r matches Ok(p) ==> off + 8 <= p.1 <= bytes@.len() && bytes@.subrange(off as int, p.1 as int)
            == enc_str(p.0@),
        r matches Err(e) ==> e == CoreError::Corrupt,
        forall|s: Seq<char>|
            (off + 8 + encode_utf8(s).len() <= bytes@.len() && #[trigger] enc_str(s)
                == bytes@.subrange(
                off as int,
                off as int + 8 + encode_utf8(s).len() as int,
            )) ==> (r matches Ok(p) && p.0@ == s && p.1 == off + 8 + encode_utf8(s).len()),
{
    if bytes.len() - off < 8 {
        return Err(CoreError::Corrupt);
    }
    let l64 = read_u64(bytes, off);
    proof {
        assert forall|s: Seq<char>|
            off + 8 + encode_utf8(s).len() <= bytes@.len() && #[trigger] enc_str(s)
                == bytes@.subrange(
                off as int,
                off as int + 8 + encode_utf8(s).len() as int,
            ) implies encode_utf8(s).len() as u64 == l64 && encode_utf8(s).len() <= bytes@.len()
            - off - 8 by {
            assert(bytes@.subrange(off as int, off as int + 8) =~= enc_str(s).subrange(0, 8));
            assert(enc_str(s).subrange(0, 8) =~= enc_u64(encode_utf8(s).len() as u64));
            lemma_enc_u64_inj(l64, encode_utf8(s).len() as u64);
        }
    }
    if l64 > (bytes.len() - off - 8) as u64 {
        return Err(CoreError::Corrupt);
    }
    let l = l64 as usize;
    let end = off + 8 + l;
    let sb = slice_subrange(bytes, off + 8, end);
    proof {
        assert forall|s: Seq<char>|
            off + 8 + encode_utf8(s).len() <= bytes@.len() && #[trigger] enc_str(s)
                == bytes@.subrange(
                off as int,
                off as int + 8 + encode_utf8(s).len() as int,
            ) implies sb@ == encode_utf8(s) && valid_utf8(sb@) by {
            assert(encode_utf8(s).len() as u64 == l64);
            assert(encode_utf8(s).len() == l);
            assert(sb@ =~= enc_str(s).subrange(8, 8 + l as int));
            assert(enc_str(s).subrange(8, 8 + l as int) =~= encode_utf8(s));
            vstd::utf8::encode_utf8_valid_utf8(s);
        }
    }
    match bytes_to_string(sb) {
        None => Err(CoreError::Corrupt),
        Some(s) => {
            proof {
                decode_utf8_encode_utf8(sb@);
                assert(encode_utf8(s@) == sb@);
                assert(enc_u64(l64) == bytes@.subrange(off as int, off as int + 8));
                assert(l as u64 == l64);
                assert(bytes@.subrange(off as int, end as int) =~= bytes@.subrange(
                    off as int,
                    off as int + 8,
                ) + sb@);
                assert(bytes@.subrange(off as int, end as int) =~= enc_str(s@));
                assert forall|t: Seq<char>|
                    off + 8 + encode_utf8(t).len() <= bytes@.len() && #[trigger] enc_str(t)
                        == bytes@.subrange(
                        off as int,
                        off as int + 8 + encode_utf8(t).len() as int,
                    ) implies s@ == t && end == off + 8 + encode_utf8(t).len() by {
                    assert(sb@ == encode_utf8(t));
                    vstd::utf8::encode_utf8_decode_utf8(t);
                    assert(s@ == decode_utf8(encode_utf8(t)));
                }
            }
            Ok((s, end))
        },
    }
}

/// Deserializes an archive produced by `encode_metadata`, validating its
/// structure in full, both ways: whatever record it returns re-encodes to
/// exactly the input bytes — trailing or malformed data is rejected as
/// `Corrupt` — and whenever the bytes are the archive of some field values,
/// it succeeds and returns exactly those values. With `encode_metadata`'s
/// contract this makes the metadata round trip exact, field for field,
/// chunk order included.
#[verifier::loop_isolation(true)]
#[verifier::rlimit(100)]
#[verifier::spinoff_prover]
pub fn decode_metadata(bytes: &[u8]) -> (r: Result<Metadata, CoreError>)
    ensures
        r matches Ok(m) ==> bytes@ == meta_enc(&m),
        r matches Err(e) ==> e == CoreError::Corrupt,
        forall|nm: Seq<char>, sz: u64, ft: Seq<char>, tm: i64, cs: Seq<Seq<char>>| #[trigger]
            meta_archive_of(bytes@, nm, sz, ft, tm, cs) ==> (r matches Ok(m) && m.name@ == nm
                && m.size == sz && m.file_type@ == ft && m.time == tm && views_of(m.chunks@)
                == cs),
{
    let n = bytes.len();
    proof {
        assert forall|nm: Seq<char>, sz: u64, ft: Seq<char>, tm: i64, cs: Seq<Seq<char>>|
            #[trigger] meta_archive_of(bytes@, nm, sz, ft, tm, cs) implies bytes@.len() == 40
            + encode_utf8(nm).len() + encode_utf8(ft).len() + enc_str_list(cs).len() && enc_str(
            nm,
        ) == bytes@.subrange(0, 8 + encode_utf8(nm).len() as int) by {
            assert(enc_str(nm) =~= bytes@.subrange(0, 8 + encode_utf8(nm).len() as int));
        }
    }
    let (name, off1) = match read_str(bytes, 0) {
        Ok(p) => p,
        Err(e) => {
            return Err(e);
        },
    };
    proof {
        assert forall|nm: Seq<char>, sz: u64, ft: Seq<char>, tm: i64, cs: Seq<Seq<char>>|
            #[trigger] meta_archive_of(bytes@, nm, sz, ft, tm, cs) implies name@ == nm && off1
            == 8 + encode_utf8(nm).len() && off1 + 8 <= n && enc_u64(sz) == bytes@.subrange(
            off1 as int,
            off1 + 8,
        ) by {
            assert(enc_u64(sz) =~= bytes@.subrange(
                8 + encode_utf8(nm).len() as int,
                16 + encode_utf8(nm).len() as int,
            ));
        }
    }
    if n - off1 < 8 {
        return Err(CoreError::Corrupt);
    }
    let size = read_u64(bytes, off1);
    proof {
        assert forall|nm: Seq<char>, sz: u64, ft: Seq<char>, tm: i64, cs: Seq<Seq<char>>|
            #[trigger] meta_archive_of(bytes@, nm, sz, ft, tm, cs) implies size == sz && enc_str(
            ft,
        ) == bytes@.subrange(off1 + 8, off1 + 16 + encode_utf8(ft).len() as int) && off1 + 16
            + encode_utf8(ft).len() <= n by {
            lemma_enc_u64_inj(size, sz);
            assert(enc_str(ft) =~= bytes@.subrange(
                16 + encode_utf8(nm).len() as int,
                24 + encode_utf8(nm).len() + encode_utf8(ft).len() as int,
            ));
        }
    }
    let (file_type, off2) = match read_str(bytes, off1 + 8) {
        Ok(p) => p,
        Err(e) => {
            return Err(e);
        },
    };
    proof {
        assert forall|nm: Seq<char>, sz: u64, ft: Seq<char>, tm: i64, cs: Seq<Seq<char>>|
            #[trigger] meta_archive_of(bytes@, nm, sz, ft, tm, cs) implies file_type@ == ft
            && off2 == 24 + encode_utf8(nm).len() + encode_utf8(ft).len() && off2 + 16 <= n
            && enc_u64(tm as u64) == bytes@.subrange(off2 as int, off2 + 8) && enc_u64(
            cs.len() as u64,
        ) == bytes@.subrange(off2 + 8, off2 + 16) && cs.len() <= enc_str_list(cs).len()
            && cs.len() as u64 <= n as u64 by {
            assert(enc_u64(tm as u64) =~= bytes@.subrange(off2 as int, off2 + 8));
            assert(enc_u64(cs.len() as u64) =~= bytes@.subrange(off2 + 8, off2 + 16));
            lemma_enc_str_list_floor(cs);
        }
    }
    if n - off2 < 16 {
        return Err(CoreError::Corrupt);
    }
    let tm_u = read_u64(bytes, off2);
    let time = tm_u as i64;
    let count64 = read_u64(bytes, off2 + 8);
    proof {
        assert(time as u64 == tm_u) by (bit_vector)
            requires
                time == tm_u as i64,
        ;
        assert forall|nm: Seq<char>, sz: u64, ft: Seq<char>, tm: i64, cs: Seq<Seq<char>>|
            #[trigger] meta_archive_of(bytes@, nm, sz, ft, tm, cs) implies time == tm && count64
            == cs.len() by {
            lemma_enc_u64_inj(tm_u, tm as u64);
            let t2 = tm;
            assert(time == t2) by (bit_vector)
                requires
                    time as u64 == t2 as u64,
            ;
            lemma_enc_u64_inj(count64, cs.len() as u64);
        }
    }
    if count64 > n as u64 {
        return Err(CoreError::Corrupt);
    }
    let count = count64 as usize;
    let base = off2 + 16;
    let mut chunks: Vec<String> = Vec::new();
    let mut off: usize = base;
    proof {
        assert(views_of(chunks@).take(0) =~= Seq::<Seq<char>>::empty());
        assert(bytes@.subrange(base as int, off as int) =~= enc_str_list(views_of(chunks@)));
        assert forall|cs: Seq<Seq<char>>| true implies #[trigger] cs.take(0)
            =~= Seq::<Seq<char>>::empty() by {
        }
    }
    let mut i: usize = 0;
    while i < count
        invariant
            base <= off <= bytes@.len(),
            n == bytes@.len(),
            i <= count,
            chunks@.len() == i,
            bytes@.subrange(base as int, off as int) == enc_str_list(views_of(chunks@)),
            forall|nm: Seq<char>, sz: u64, ft: Seq<char>, tm: i64, cs: Seq<Seq<char>>|
                #[trigger] meta_archive_of(bytes@, nm, sz, ft, tm, cs) ==> (size == sz && time
                    == tm && name@ == nm && file_type@ == ft && count == cs.len() && i <= cs.len()
                    && views_of(chunks@) == cs.take(i as int) && base == 40 + encode_utf8(
                    nm,
                ).len() + encode_utf8(ft).len() && off == base + enc_str_list(
                    cs.take(i as int),
                ).len()),
        decreases count - i,
    {
        proof {
            assert forall|nm: Seq<char>, sz: u64, ft: Seq<char>, tm: i64, cs: Seq<Seq<char>>|
                #[trigger] meta_archive_of(bytes@, nm, sz, ft, tm, cs) implies enc_str(
                cs[i as int],
            ) == bytes@.subrange(off as int, off + 8 + encode_utf8(cs[i as int]).len() as int)
                && off + 8 + encode_utf8(cs[i as int]).len() <= n by {
                lemma_enc_str_list_split(cs, i as int);
                assert(enc_str(cs[i as int]) =~= bytes@.subrange(
                    off as int,
                    off + 8 + encode_utf8(cs[i as int]).len() as int,
                ));
            }
        }
        let (s, noff) = match read_str(bytes, off) {
            Ok(p) => p,
            Err(e) => {
                return Err(e);
            },
        };
        proof {
            lemma_enc_str_list_push(views_of(chunks@), s@);
            assert(views_of(chunks@.push(s)) =~= views_of(chunks@).push(s@));
            assert(bytes@.subrange(base as int, noff as int) =~= bytes@.subrange(
                base as int,
                off as int,
            ) + bytes@.subrange(off as int, noff as int));
            assert forall|nm: Seq<char>, sz: u64, ft: Seq<char>, tm: i64, cs: Seq<Seq<char>>|
                #[trigger] meta_archive_of(bytes@, nm, sz, ft, tm, cs) implies s@ == cs[i as int]
                && views_of(chunks@.push(s)) == cs.take(i + 1) && noff == base + enc_str_list(
                cs.take(i + 1),
            ).len() && i + 1 <= cs.len() by {
                assert(views_of(chunks@).push(cs[i as int]) =~= cs.take(i + 1));
                lemma_enc_str_list_push(cs.take(i as int), cs[i as int]);
                assert(cs.take(i as int).push(cs[i as int]) =~= cs.take(i + 1));
            }
        }
        chunks.push(s);
        off = noff;
        i = i + 1;
    }
    if off != n {
        proof {
            assert forall|nm: Seq<char>, sz: u64, ft: Seq<char>, tm: i64, cs: Seq<Seq<char>>|
                #[trigger] meta_archive_of(bytes@, nm, sz, ft, tm, cs) implies false by {
                assert(cs.take(cs.len() as int) =~= cs);
            }
        }
        return Err(CoreError::Corrupt);
    }
    let m = Metadata { name, size, file_type, time, chunks };
    proof {
        assert(views_of(m.chunks@).len() == count64) by {
            assert(m.chunks@.len() == count);
        }
        assert(bytes@ =~= bytes@.subrange(0, off1 as int) + bytes@.subrange(off1 as int, off1 + 8)
            + bytes@.subrange(off1 + 8, off2 as int) + bytes@.subrange(off2 as int, off2 + 8)
            + bytes@.subrange(off2 + 8, base as int) + bytes@.subrange(base as int, n as int));
        assert(bytes@ =~= meta_enc(&m));
        assert forall|nm: Seq<char>, sz: u64, ft: Seq<char>, tm: i64, cs: Seq<Seq<char>>|
            #[trigger] meta_archive_of(bytes@, nm, sz, ft, tm, cs) implies m.name@ == nm && m.size
            == sz && m.file_type@ == ft && m.time == tm && views_of(m.chunks@) == cs by {
            assert(cs.take(cs.len() as int) =~= cs);
        }
    }
    Ok(m)
}

/// A length-prefixed string pins down both the string and what follows it.
proof fn lemma_enc_str_prefix(s1: Seq<char>, s2: Seq<char>, r1: Seq<u8>, r2: Seq<u8>)
    requires
        enc_str(s1) + r1 == enc_str(s2) + r2,
        encode_utf8(s1).len() < 0x1_0000_0000_0000_0000,
        encode_utf8(s2).len() < 0x1_0000_0000_0000_0000,
    ensures
        s1 == s2,
        r1 == r2,
{
    let e = enc_str(s1) + r1;
    let n1 = encode_utf8(s1).len() as int;
    let n2 = encode_utf8(s2).len() as int;
    assert(e.subrange(0, 8) =~= enc_u64(encode_utf8(s1).len() as u64));
    assert(e.subrange(0, 8) =~= enc_u64(encode_utf8(s2).len() as u64));
    lemma_enc_u64_inj(encode_utf8(s1).len() as u64, encode_utf8(s2).len() as u64);
    assert(n1 == n2);
    assert(e.subrange(8, 8 + n1) =~= encode_utf8(s1));
    assert(e.subrange(8, 8 + n2) =~= encode_utf8(s2));
    vstd::utf8::encode_utf8_decode_utf8(s1);
    vstd::utf8::encode_utf8_decode_utf8(s2);
    assert(s1 == s2);
    assert(r1 =~= e.subrange(8 + n1, e.len() as int));
    assert(r2 =~= e.subrange(8 + n2, e.len() as int));
}

proof fn lemma_enc_str_list_floor(cs: Seq<Seq<char>>)
    ensures
        enc_str_list(cs).len() >= 8 * cs.len(),
    decreases cs.len(),
{
    if cs.len() > 0 {
        lemma_enc_str_list_floor(cs.skip(1));
    }
}

/// An archived string list of known length pins down every string in it.
proof fn lemma_enc_str_list_inj(cs1: Seq<Seq<char>>, cs2: Seq<Seq<char>>)
    requires
        enc_str_list(cs1) == enc_str_list(cs2),
        cs1.len() == cs2.len(),
        enc_str_list(cs1).len() < 0x1_0000_0000_0000_0000,
    ensures
        cs1 == cs2,
    decreases cs1.len(),
{
    if cs1.len() == 0 {
        assert(cs1 =~= cs2);
    } else {
        let e = enc_str_list(cs1);
        assert(e == enc_str(cs1[0]) + enc_str_list(cs1.skip(1)));
        assert(e == enc_str(cs2[0]) + enc_str_list(cs2.skip(1)));
        assert(encode_utf8(cs1[0]).len() <= e.len());
        assert(encode_utf8(cs2[0]).len() <= e.len());
        lemma_enc_str_prefix(cs1[0], cs2[0], enc_str_list(cs1.skip(1)), enc_str_list(cs2.skip(1)));
        assert(enc_str_list(cs1.skip(1)).len() <= e.len());
        lemma_enc_str_list_inj(cs1.skip(1), cs2.skip(1));
        assert forall|i: int| 0 <= i < cs1.len() implies cs1[i] == cs2[i] by {
            if i > 0 {
                assert(cs1.skip(1)[i - 1] == cs2.skip(1)[i - 1]);
            }
        }
        assert(cs1 =~= cs2);
    }
}

/// A metadata archive identifies its record: two records with the same
/// archive bytes agree field for field, chunk order included. So a record
/// that `decode_metadata` accepts from `encode_metadata(m)`'s bytes — their
/// archives then coincide — is `m` itself: the metadata round trip is exact.
#[verifier::rlimit(100)]
pub proof fn lemma_meta_archive_identifies(a: &Metadata, b: &Metadata)
    requires
        meta_enc(a) == meta_enc(b),
        meta_enc(a).len() < 0x1_0000_0000_0000_0000,
    ensures
        a.name@ == b.name@,
        a.size == b.size,
        a.file_type@ == b.file_type@,
        a.time == b.time,
        views_of(a.chunks@) == views_of(b.chunks@),
{
    let e = meta_enc(a);
    let csa = views_of(a.chunks@);
    let csb = views_of(b.chunks@);
    let resta = enc_u64(a.size) + enc_str(a.file_type@) + enc_u64(a.time as u64) + enc_u64(
        csa.len() as u64,
    ) + enc_str_list(csa);
    let restb = enc_u64(b.size) + enc_str(b.file_type@) + enc_u64(b.time as u64) + enc_u64(
        csb.len() as u64,
    ) + enc_str_list(csb);
    assert(enc_str(a.name@) + resta =~= e);
    assert(enc_str(b.name@) + restb =~= e);
    assert(encode_utf8(a.name@).len() <= e.len());
    assert(encode_utf8(b.name@).len() <= e.len());
    lemma_enc_str_prefix(a.name@, b.name@, resta, restb);
    assert(resta.subrange(0, 8) =~= enc_u64(a.size));
    assert(restb.subrange(0, 8) =~= enc_u64(b.size));
    lemma_enc_u64_inj(a.size, b.size);
    let resta2 = enc_u64(a.time as u64) + enc_u64(csa.len() as u64) + enc_str_list(csa);
    let restb2 = enc_u64(b.time as u64) + enc_u64(csb.len() as u64) + enc_str_list(csb);
    assert(enc_str(a.file_type@) + resta2 =~= resta.skip(8));
    assert(enc_str(b.file_type@) + restb2 =~= restb.skip(8));
    assert(encode_utf8(a.file_type@).len() <= resta.len());
    assert(encode_utf8(b.file_type@).len() <= restb.len());
    lemma_enc_str_prefix(a.file_type@, b.file_type@, resta2, restb2);
    assert(resta2.subrange(0, 8) =~= enc_u64(a.time as u64));
    assert(restb2.subrange(0, 8) =~= enc_u64(b.time as u64));
    lemma_enc_u64_inj(a.time as u64, b.time as u64);
    let ta = a.time;
    let tb = b.time;
    assert(ta == tb) by (bit_vector)
        requires
            ta as u64 == tb as u64,
    ;
    assert(resta2.subrange(8, 16) =~= enc_u64(csa.len() as u64));
    assert(restb2.subrange(8, 16) =~= enc_u64(csb.len() as u64));
    lemma_enc_u64_inj(csa.len() as u64, csb.len() as u64);
    lemma_enc_str_list_floor(csa);
    lemma_enc_str_list_floor(csb);
    assert(csa.len() == csb.len());
    assert(enc_str_list(csa) =~= resta2.skip(16));
    assert(enc_str_list(csb) =~= restb2.skip(16));
    assert(enc_str_list(csa).len() <= e.len());
    lemma_enc_str_list_inj(csa, csb);
}

} // verus!
