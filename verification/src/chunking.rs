//! The core algorithm: splitting a byte buffer into fixed-size chunks,
//! hashing each, deduplicating against the chunk store, and the companion
//! reconstruction that concatenates the chunks back into the original bytes.

use crate::compress::{compress_chunk, zstd_decoded};
use crate::errors::CoreError;
use crate::hashing::{chunk_hash, sum_sha256};
use crate::store::{entry_ok, views_of, ChunkStore};
use vstd::prelude::*;
use vstd::slice::slice_subrange;

verus! {

/// The fixed-size chunk decomposition of a byte sequence: full chunks of `c`
/// bytes, then one final short chunk holding any remainder; empty input has
/// no chunks.
pub open spec fn chunks_of(b: Seq<u8>, c: nat) -> Seq<Seq<u8>>
    decreases b.len(),
{
    if c == 0 || b.len() == 0 {
        Seq::empty()
    } else if b.len() <= c {
        seq![b]
    } else {
        seq![b.take(c as int)] + chunks_of(b.skip(c as int), c)
    }
}

/// The ordered hash list of a buffer's chunks.
pub open spec fn hash_list_of(b: Seq<u8>, c: nat) -> Seq<Seq<char>> {
    chunks_of(b, c).map_values(|ch: Seq<u8>| chunk_hash(ch))
}

/// Concatenation of a sequence of byte segments, in order.
pub open spec fn concat_all(segs: Seq<Seq<u8>>) -> Seq<u8>
    decreases segs.len(),
{
    if segs.len() == 0 {
        Seq::empty()
    } else {
        segs[0] + concat_all(segs.skip(1))
    }
}

proof fn lemma_concat_all_push(segs: Seq<Seq<u8>>, x: Seq<u8>)
    ensures
        concat_all(segs.push(x)) == concat_all(segs) + x,
    decreases segs.len(),
{
    let p = segs.push(x);
    if segs.len() == 0 {
        assert(p.len() == 1);
        assert(p[0] == x);
        assert(p.skip(1) =~= Seq::<Seq<u8>>::empty());
        assert(concat_all(p) == p[0] + concat_all(p.skip(1)));
        assert(concat_all(segs) == Seq::<u8>::empty());
        assert(concat_all(p) =~= concat_all(segs) + x);
    } else {
        assert(p.len() == segs.len() + 1);
        assert(p[0] == segs[0]);
        assert(p.skip(1) =~= segs.skip(1).push(x));
        lemma_concat_all_push(segs.skip(1), x);
        assert(concat_all(p) == p[0] + concat_all(p.skip(1)));
        assert(concat_all(segs) == segs[0] + concat_all(segs.skip(1)));
        assert(concat_all(p) =~= concat_all(segs) + x);
    }
}

/// Concatenating the chunks of a buffer, in order, yields the buffer: chunk
/// boundaries partition the input.
pub proof fn lemma_chunks_concat(b: Seq<u8>, c: nat)
    requires
        c >= 1,
    ensures
        concat_all(chunks_of(b, c)) == b,
    decreases b.len(),
{
    let chs = chunks_of(b, c);
    if b.len() == 0 {
        assert(concat_all(chs) =~= b);
    } else if b.len() <= c {
        assert(chs == seq![b]);
        assert(chs[0] == b);
        assert(chs.skip(1) =~= Seq::<Seq<u8>>::empty());
        assert(concat_all(chs) == chs[0] + concat_all(chs.skip(1)));
        assert(concat_all(chs) =~= b);
    } else {
        lemma_chunks_concat(b.skip(c as int), c);
        assert(chs == seq![b.take(c as int)] + chunks_of(b.skip(c as int), c));
        assert(chs[0] == b.take(c as int));
        assert(chs.skip(1) =~= chunks_of(b.skip(c as int), c));
        assert(concat_all(chs) == chs[0] + concat_all(chs.skip(1)));
        assert(concat_all(chs) =~= b.take(c as int) + b.skip(c as int));
        assert(b.take(c as int) + b.skip(c as int) =~= b);
    }
}

/// Boundary chunking, exact multiple: an input of exactly `k * c` bytes
/// splits into exactly `k` chunks of `c` bytes each — no trailing empty
/// chunk.
pub proof fn lemma_chunks_exact(b: Seq<u8>, c: nat, k: nat)
    requires
        c >= 1,
        b.len() == k * c,
    ensures
        chunks_of(b, c).len() == k,
        forall|i: int| 0 <= i < k ==> chunks_of(b, c)[i].len() == c,
    decreases k,
{
    if k == 0 {
        assert(b.len() == 0) by (nonlinear_arith)
            requires
                k == 0,
                b.len() == k * c,
        ;
    } else if k == 1 {
        assert(b.len() == c) by (nonlinear_arith)
            requires
                k == 1,
                b.len() == k * c,
        ;
        assert(chunks_of(b, c) == seq![b]);
        assert(chunks_of(b, c)[0] == b);
    } else {
        assert(b.len() > c && b.len() - c == (k - 1) * c) by (nonlinear_arith)
            requires
                k >= 2,
                c >= 1,
                b.len() == k * c,
        ;
        let rest = b.skip(c as int);
        lemma_chunks_exact(rest, c, (k - 1) as nat);
        let chs = chunks_of(b, c);
        assert(chs == seq![b.take(c as int)] + chunks_of(rest, c));
        assert(chs.len() == k);
        assert forall|i: int| 0 <= i < k implies chs[i].len() == c by {
            if i == 0 {
                assert(chs[0] == b.take(c as int));
            } else {
                assert(chs[i] == chunks_of(rest, c)[i - 1]);
            }
        }
    }
}

/// Boundary chunking with remainder: an input of `k * c + r` bytes with
/// `0 < r < c` splits into `k` chunks of `c` bytes plus one final chunk of
/// `r` bytes.
pub proof fn lemma_chunks_remainder(b: Seq<u8>, c: nat, k: nat, r: nat)
    requires
        c >= 1,
        0 < r < c,
        b.len() == k * c + r,
    ensures
        chunks_of(b, c).len() == k + 1,
        forall|i: int| 0 <= i < k ==> chunks_of(b, c)[i].len() == c,
        chunks_of(b, c)[k as int].len() == r,
    decreases k,
{
    if k == 0 {
        assert(b.len() == r) by (nonlinear_arith)
            requires
                k == 0,
                b.len() == k * c + r,
        ;
        assert(chunks_of(b, c) == seq![b]);
        assert(chunks_of(b, c)[0] == b);
    } else {
        assert(b.len() > c && b.len() - c == (k - 1) * c + r) by (nonlinear_arith)
            requires
                k >= 1,
                c >= 1,
                0 < r < c,
                b.len() == k * c + r,
        ;
        let rest = b.skip(c as int);
        lemma_chunks_remainder(rest, c, (k - 1) as nat, r);
        let chs = chunks_of(b, c);
        assert(chs == seq![b.take(c as int)] + chunks_of(rest, c));
        assert(chs.len() == k + 1);
        assert forall|i: int| 0 <= i < k implies chs[i].len() == c by {
            if i == 0 {
                assert(chs[0] == b.take(c as int));
            } else {
                assert(chs[i] == chunks_of(rest, c)[i - 1]);
            }
        }
        assert(chs[k as int] == chunks_of(rest, c)[k - 1]);
    }
}

/// What a run of `split_file_and_save` leaves behind, relating the store
/// before (`m0`) and after (`m1`) saving the chunk list `chs`: prior entries
/// are untouched, nothing outside the chunk hashes is added, every chunk
/// hash is present, and every newly added payload decodes to one of the
/// chunks bearing that hash.
#[verifier::opaque]
pub open spec fn split_saved(
    m0: Map<Seq<char>, Seq<u8>>,
    m1: Map<Seq<char>, Seq<u8>>,
    chs: Seq<Seq<u8>>,
) -> bool {
    &&& m0.submap_of(m1)
    &&& forall|h: Seq<char>| #[trigger]
        m1.contains_key(h) ==> m0.contains_key(h) || exists|i: int|
            0 <= i < chs.len() && chunk_hash(#[trigger] chs[i]) == h
    &&& forall|i: int| 0 <= i < chs.len() ==> m1.contains_key(chunk_hash(#[trigger] chs[i]))
    &&& forall|i: int|
        0 <= i < chs.len() && !m0.contains_key(chunk_hash(#[trigger] chs[i])) ==> exists|j: int|
            0 <= j < chs.len() && chunk_hash(#[trigger] chs[j]) == chunk_hash(chs[i])
                && zstd_decoded(m1[chunk_hash(chs[i])]) == Some(chs[j])
}

/// A store trivially carries an empty saved run.
proof fn lemma_split_saved_refl(m0: Map<Seq<char>, Seq<u8>>, chs: Seq<Seq<u8>>)
    requires
        chs.len() == 0,
    ensures
        split_saved(m0, m0, chs),
{
    reveal(split_saved);
    assert(m0.submap_of(m0));
}

/// A saved run never disturbs what the store already held.
proof fn lemma_split_saved_submap(
    m0: Map<Seq<char>, Seq<u8>>,
    m1: Map<Seq<char>, Seq<u8>>,
    chs: Seq<Seq<u8>>,
)
    requires
        split_saved(m0, m1, chs),
    ensures
        m0.submap_of(m1),
{
    reveal(split_saved);
}

/// Extending a `split_saved` run by one chunk whose hash is already present.
proof fn lemma_split_saved_skip(
    m0: Map<Seq<char>, Seq<u8>>,
    m1: Map<Seq<char>, Seq<u8>>,
    chs: Seq<Seq<u8>>,
    k: int,
)
    requires
        0 <= k < chs.len(),
        split_saved(m0, m1, chs.take(k)),
        m1.contains_key(chunk_hash(chs[k])),
    ensures
        split_saved(m0, m1, chs.take(k + 1)),
{
    reveal(split_saved);
    let pre = chs.take(k);
    let post = chs.take(k + 1);
    assert(pre.len() == k && post.len() == k + 1);
    assert(forall|i: int| 0 <= i < k ==> post[i] == pre[i]);
    assert(post[k] == chs[k]);
    assert forall|h: Seq<char>| #[trigger] m1.contains_key(h) implies m0.contains_key(h)
        || exists|i: int| 0 <= i < post.len() && chunk_hash(#[trigger] post[i]) == h by {
        if !m0.contains_key(h) {
            let i = choose|i: int| 0 <= i < pre.len() && chunk_hash(#[trigger] pre[i]) == h;
            assert(chunk_hash(post[i]) == h);
        }
    }
    assert forall|i: int|
        0 <= i < post.len() && !m0.contains_key(chunk_hash(#[trigger] post[i])) implies exists|
        j: int,
    |
        0 <= j < post.len() && chunk_hash(#[trigger] post[j]) == chunk_hash(post[i])
            && zstd_decoded(m1[chunk_hash(post[i])]) == Some(post[j]) by {
        let h = chunk_hash(post[i]);
        if i < k {
            let j = choose|j: int|
                0 <= j < pre.len() && chunk_hash(#[trigger] pre[j]) == chunk_hash(pre[i])
                    && zstd_decoded(m1[chunk_hash(pre[i])]) == Some(pre[j]);
            assert(chunk_hash(post[j]) == h && zstd_decoded(m1[h]) == Some(post[j]));
        } else {
            assert(m1.contains_key(h));
            let i2 = choose|i2: int| 0 <= i2 < pre.len() && chunk_hash(#[trigger] pre[i2]) == h;
            assert(!m0.contains_key(chunk_hash(pre[i2])));
            let j = choose|j: int|
                0 <= j < pre.len() && chunk_hash(#[trigger] pre[j]) == chunk_hash(pre[i2])
                    && zstd_decoded(m1[chunk_hash(pre[i2])]) == Some(pre[j]);
            assert(chunk_hash(post[j]) == h && zstd_decoded(m1[h]) == Some(post[j]));
        }
    }
}

/// Extending a `split_saved` run by one chunk whose hash was absent and
/// whose compressed payload has just been inserted.
proof fn lemma_split_saved_insert(
    m0: Map<Seq<char>, Seq<u8>>,
    m1: Map<Seq<char>, Seq<u8>>,
    chs: Seq<Seq<u8>>,
    k: int,
    frame: Seq<u8>,
)
    requires
        0 <= k < chs.len(),
        split_saved(m0, m1, chs.take(k)),
        !m1.contains_key(chunk_hash(chs[k])),
        zstd_decoded(frame) == Some(chs[k]),
    ensures
        split_saved(m0, m1.insert(chunk_hash(chs[k]), frame), chs.take(k + 1)),
{
    reveal(split_saved);
    let pre = chs.take(k);
    let post = chs.take(k + 1);
    let h_k = chunk_hash(chs[k]);
    let m2 = m1.insert(h_k, frame);
    assert(pre.len() == k && post.len() == k + 1);
    assert(forall|i: int| 0 <= i < k ==> post[i] == pre[i]);
    assert(post[k] == chs[k]);
    assert forall|key: Seq<char>| #[trigger] m0.dom().contains(key) implies m2.dom().contains(key)
        && m0[key] == m2[key] by {
        assert(m1.dom().contains(key) && m0[key] == m1[key]);
        assert(key != h_k);
    }
    assert(m0.submap_of(m2));
    assert forall|h: Seq<char>| #[trigger] m2.contains_key(h) implies m0.contains_key(h)
        || exists|i: int| 0 <= i < post.len() && chunk_hash(#[trigger] post[i]) == h by {
        if h == h_k {
            assert(chunk_hash(post[k]) == h);
        } else if !m0.contains_key(h) {
            assert(m1.contains_key(h));
            let i = choose|i: int| 0 <= i < pre.len() && chunk_hash(#[trigger] pre[i]) == h;
            assert(chunk_hash(post[i]) == h);
        }
    }
    assert forall|i: int|
        0 <= i < post.len() && !m0.contains_key(chunk_hash(#[trigger] post[i])) implies exists|
        j: int,
    |
        0 <= j < post.len() && chunk_hash(#[trigger] post[j]) == chunk_hash(post[i])
            && zstd_decoded(m2[chunk_hash(post[i])]) == Some(post[j]) by {
        let h = chunk_hash(post[i]);
        if i == k {
            assert(chunk_hash(post[k]) == h && zstd_decoded(m2[h]) == Some(post[k]));
        } else {
            assert(m1.contains_key(chunk_hash(pre[i])));
            assert(h != h_k);
            let j = choose|j: int|
                0 <= j < pre.len() && chunk_hash(#[trigger] pre[j]) == chunk_hash(pre[i])
                    && zstd_decoded(m1[chunk_hash(pre[i])]) == Some(pre[j]);
            assert(m2[h] == m1[h]);
            assert(chunk_hash(post[j]) == h && zstd_decoded(m2[h]) == Some(post[j]));
        }
    }
}

/// One step of the chunk decomposition: while bytes remain at `pos`, the
/// next chunk is the slice from `pos` to `end` (one full chunk, or the
/// remainder), and the decomposition of what follows `end` is the tail.
proof fn lemma_chunk_step(data: Seq<u8>, c: nat, pos: int, k: int, end: int)
    requires
        c >= 1,
        0 <= pos < data.len(),
        0 <= k <= chunks_of(data, c).len(),
        chunks_of(data.skip(pos), c) == chunks_of(data, c).skip(k),
        end == if data.len() - pos >= c {
            pos + c
        } else {
            data.len() as int
        },
    ensures
        k < chunks_of(data, c).len(),
        chunks_of(data, c)[k] == data.subrange(pos, end),
        chunks_of(data.skip(end), c) == chunks_of(data, c).skip(k + 1),
        end <= data.len(),
{
    let chs = chunks_of(data, c);
    let rem = data.skip(pos);
    assert(rem.len() == data.len() - pos);
    if rem.len() <= c {
        assert(chunks_of(rem, c) == seq![rem]);
        assert(rem =~= data.subrange(pos, end));
    } else {
        assert(chunks_of(rem, c) == seq![rem.take(c as int)] + chunks_of(rem.skip(c as int), c));
        assert(rem.take(c as int) =~= data.subrange(pos, end));
    }
    assert(chunks_of(rem, c).len() >= 1);
    assert(chs.skip(k).len() >= 1);
    assert(chs.len() >= k + 1);
    assert(chs.skip(k)[0] == chs[k]);
    assert(chs[k] == chunks_of(rem, c)[0]);
    assert(chs[k] == data.subrange(pos, end));
    if rem.len() <= c {
        assert(chs.skip(k).len() == 1);
        assert(chs.len() == k + 1);
        assert(data.skip(end) =~= Seq::<u8>::empty());
        assert(chunks_of(data.skip(end), c) =~= Seq::<Seq<u8>>::empty());
        assert(chs.skip(k + 1) =~= Seq::<Seq<u8>>::empty());
    } else {
        assert(data.skip(end) =~= rem.skip(c as int));
        assert(chs.skip(k + 1) =~= chs.skip(k).skip(1));
        assert(chunks_of(rem, c).skip(1) =~= chunks_of(rem.skip(c as int), c));
        assert(chs.skip(k + 1) == chunks_of(data.skip(end), c));
    }
}

/// Appending the hash string of list entry `k` extends the views by one.
proof fn lemma_views_push(hs: Seq<String>, h: String, hl: Seq<Seq<char>>, k: int)
    requires
        views_of(hs) == hl.take(k),
        hs.len() == k,
        0 <= k < hl.len(),
        h@ == hl[k],
    ensures
        views_of(hs.push(h)) == hl.take(k + 1),
{
    assert forall|i: int| 0 <= i < k + 1 implies views_of(hs.push(h))[i] == hl.take(k + 1)[i] by {
        if i < k {
            assert(views_of(hs)[i] == hl.take(k)[i]);
        }
    }
    assert(views_of(hs.push(h)) =~= hl.take(k + 1));
}

/// Splits `data` into fixed-size chunks, hashes each in order, stores every
/// chunk whose hash is not yet present (compressed), and returns the total
/// byte count together with the ordered hash list — the list records logical
/// composition, so deduplicated chunks appear in it all the same.
///
/// Splitting the same input again returns the same hash list and, since
/// every chunk hash is then already present, leaves the store unchanged: no
/// new chunk is written.
#[verifier::loop_isolation(true)]
#[verifier::rlimit(100)]
#[verifier::spinoff_prover]
pub fn split_file_and_save(store: &mut ChunkStore, data: &[u8], chunk_size: usize) -> (r: Result<
    (usize, Vec<String>),
    CoreError,
>)
    requires
        chunk_size >= 1,
        old(store).wf(),
    ensures
        r is Ok,
        final(store).wf(),
        old(store)@.submap_of(final(store)@),
        r matches Ok(p) ==> {
            &&& p.0 == data@.len()
            &&& views_of(p.1@) == hash_list_of(data@, chunk_size as nat)
            &&& split_saved(old(store)@, final(store)@, chunks_of(data@, chunk_size as nat))
            &&& ((forall|i: int|
                0 <= i < chunks_of(data@, chunk_size as nat).len()
                    ==> old(store)@.contains_key(
                    chunk_hash(#[trigger] chunks_of(data@, chunk_size as nat)[i]),
                )) ==> final(store)@ == old(store)@ && final(store).spec_chunk_count() == old(
                store,
            ).spec_chunk_count())
        },
{
    let ghost c = chunk_size as nat;
    let ghost chs = chunks_of(data@, c);
    let mut hashes: Vec<String> = Vec::new();
    let mut total: usize = 0;
    let mut pos: usize = 0;
    proof {
        assert(chs.take(0) =~= Seq::<Seq<u8>>::empty());
        assert(hash_list_of(data@, c).take(0) =~= views_of(hashes@));
        assert(data@.skip(0) =~= data@);
        assert(chs.skip(0) =~= chs);
        lemma_split_saved_refl(old(store)@, chs.take(0));
    }
    while pos < data.len()
        invariant
            chunk_size >= 1,
            c == chunk_size as nat,
            chs == chunks_of(data@, c),
            pos <= data.len(),
            total == pos,
            hashes@.len() <= chs.len(),
            chunks_of(data@.skip(pos as int), c) == chs.skip(hashes@.len() as int),
            views_of(hashes@) == hash_list_of(data@, c).take(hashes@.len() as int),
            store.wf(),
            old(store).wf(),
            split_saved(old(store)@, store@, chs.take(hashes@.len() as int)),
            ((forall|i: int|
                0 <= i < hashes@.len() ==> old(store)@.contains_key(
                    chunk_hash(#[trigger] chs[i]),
                )) ==> store@ == old(store)@ && store.spec_chunk_count() == old(
                store,
            ).spec_chunk_count()),
        decreases data.len() - pos,
    {
        let ghost k = hashes@.len() as int;
        let ghost store_in = store@;
        let remaining = data.len() - pos;
        let take_n = if remaining >= chunk_size {
            chunk_size
        } else {
            remaining
        };
        let end = pos + take_n;
        proof {
            lemma_chunk_step(data@, c, pos as int, k, end as int);
        }
        let chunk = slice_subrange(data, pos, end);
        let h = sum_sha256(chunk);
        proof {
            assert(chs[k] == chunk@);
            assert(hash_list_of(data@, c)[k] == chunk_hash(chs[k]));
        }
        if !store.is_path_exist(h.as_str()) {
            let comp = match compress_chunk(chunk) {
                Ok(v) => v,
                Err(e) => {
                    return Err(e);
                },
            };
            proof {
                assert(entry_ok(h@, comp@));
                lemma_split_saved_insert(old(store)@, store@, chs, k, comp@);
            }
            store.save_file(h.as_str(), comp);
        } else {
            proof {
                lemma_split_saved_skip(old(store)@, store@, chs, k);
            }
        }
        proof {
            lemma_views_push(hashes@, h, hash_list_of(data@, c), k);
        }
        hashes.push(h);
        total = total + take_n;
        pos = end;
        proof {
            assert(hashes@.len() == k + 1);
            if forall|i: int|
                0 <= i < hashes@.len() ==> old(store)@.contains_key(
                    chunk_hash(#[trigger] chs[i]),
                ) {
                assert(old(store)@.contains_key(chunk_hash(chs[k])));
                assert(store_in == old(store)@);
                assert(store_in.contains_key(chunk_hash(chs[k])));
                assert(store@ == old(store)@);
            }
        }
    }
    proof {
        assert(data@.skip(pos as int) =~= Seq::<u8>::empty());
        assert(chs.skip(hashes@.len() as int).len() == 0);
        assert(hashes@.len() == chs.len());
        assert(chs.take(chs.len() as int) =~= chs);
        assert(hash_list_of(data@, c).take(hashes@.len() as int) =~= hash_list_of(data@, c));
        lemma_split_saved_submap(old(store)@, store@, chs.take(hashes@.len() as int));
    }
    Ok((total, hashes))
}

/// What the payload stored under `h` decodes to (the empty sequence where
/// nothing decodable is stored — a well-formed store has no such entry).
pub open spec fn stored_chunk(m: Map<Seq<char>, Seq<u8>>, h: Seq<char>) -> Seq<u8> {
    match zstd_decoded(m[h]) {
        Some(content) => content,
        None => Seq::empty(),
    }
}

/// The decoded payloads stored under a list of hashes, in list order.
pub open spec fn stored_chunks(m: Map<Seq<char>, Seq<u8>>, hs: Seq<Seq<char>>) -> Seq<Seq<u8>> {
    Seq::new(hs.len(), |i: int| stored_chunk(m, hs[i]))
}

/// The store holds, under the hash of every chunk of `b`, a payload that
/// decodes to exactly that chunk.
pub open spec fn store_has_chunks(m: Map<Seq<char>, Seq<u8>>, b: Seq<u8>, c: nat) -> bool {
    forall|i: int|
        0 <= i < chunks_of(b, c).len() ==> m.contains_key(chunk_hash(#[trigger] chunks_of(b, c)[i]))
            && zstd_decoded(m[chunk_hash(chunks_of(b, c)[i])]) == Some(chunks_of(b, c)[i])
}

/// Round trip: when no two distinct chunks of `b` share a digest, and
/// whatever the store already held under `b`'s chunk hashes was those very
/// chunks' payloads, then after `split_file_and_save` the store holds, under
/// every hash of `b`'s list, a payload decoding to `b`'s corresponding chunk
/// — and concatenating the chunks in order is exactly `b`, so
/// `reconstruct_all` over the returned hash list returns `b` (see its
/// contract). The collision-freedom hypothesis is the assumed cryptographic
/// property of the content digest; the law does not cover a digest
/// collision.
pub proof fn lemma_round_trip(
    m0: Map<Seq<char>, Seq<u8>>,
    m1: Map<Seq<char>, Seq<u8>>,
    b: Seq<u8>,
    c: nat,
)
    requires
        c >= 1,
        split_saved(m0, m1, chunks_of(b, c)),
        forall|i: int, j: int|
            0 <= i < chunks_of(b, c).len() && 0 <= j < chunks_of(b, c).len() && chunk_hash(
                #[trigger] chunks_of(b, c)[i],
            ) == chunk_hash(#[trigger] chunks_of(b, c)[j]) ==> chunks_of(b, c)[i] == chunks_of(
                b,
                c,
            )[j],
        forall|i: int|
            0 <= i < chunks_of(b, c).len() && m0.contains_key(
                chunk_hash(#[trigger] chunks_of(b, c)[i]),
            ) ==> zstd_decoded(m0[chunk_hash(chunks_of(b, c)[i])]) == Some(chunks_of(b, c)[i]),
    ensures
        store_has_chunks(m1, b, c),
        concat_all(chunks_of(b, c)) == b,
{
    reveal(split_saved);
    let chs = chunks_of(b, c);
    assert forall|i: int| 0 <= i < chs.len() implies m1.contains_key(
        chunk_hash(#[trigger] chs[i]),
    ) && zstd_decoded(m1[chunk_hash(chs[i])]) == Some(chs[i]) by {
        let h = chunk_hash(chs[i]);
        assert(m1.contains_key(h));
        if m0.contains_key(h) {
            assert(m1[h] == m0[h]);
        } else {
            let j = choose|j: int|
                0 <= j < chs.len() && chunk_hash(#[trigger] chs[j]) == chunk_hash(chs[i])
                    && zstd_decoded(m1[chunk_hash(chs[i])]) == Some(chs[j]);
            assert(chs[j] == chs[i]);
        }
    }
    lemma_chunks_concat(b, c);
}

/// Appends the bytes of `src` to `dst`.
pub(crate) fn append_bytes(dst: &mut Vec<u8>, src: &[u8])
    ensures
        final(dst)@ == old(dst)@ + src@,
{
    let mut i: usize = 0;
    while i < src.len()
        invariant
            i <= src@.len(),
            dst@ == old(dst)@ + src@.take(i as int),
        decreases src@.len() - i,
    {
        let b = src[i];
        dst.push(b);
        proof {
            assert(old(dst)@ + src@.take(i + 1) =~= (old(dst)@ + src@.take(i as int)).push(
                src@[i as int],
            ));
        }
        i = i + 1;
    }
    proof {
        assert(src@.take(src@.len() as int) =~= src@);
    }
}

/// Reconstructs a byte stream by resolving every hash of `hashes`, in order,
/// against the store and concatenating the decompressed segments. Succeeds
/// exactly when every hash is present; a missing chunk is reported as
/// `NotFound` rather than a silent short stream. When the store holds, for
/// every chunk of some input, exactly that chunk's payload — as
/// `split_file_and_save` leaves it absent digest collisions, see
/// `lemma_round_trip` — the result is that very input.
pub fn reconstruct_all(store: &ChunkStore, hashes: &Vec<String>) -> (r: Result<Vec<u8>, CoreError>)
    requires
        store.wf(),
    ensures
        r is Ok <==> (forall|i: int| 0 <= i < hashes@.len() ==> store@.contains_key(hashes@[i]@)),
        r matches Ok(out) ==> out@ == concat_all(stored_chunks(store@, views_of(hashes@))),
        r matches Ok(out) ==> (forall|b: Seq<u8>, c: nat|
            c >= 1 && views_of(hashes@) == #[trigger] hash_list_of(b, c) && store_has_chunks(
                store@,
                b,
                c,
            ) ==> out@ == b),
        r matches Err(e) ==> e == CoreError::NotFound,
{
    let ghost hvs = views_of(hashes@);
    let mut out: Vec<u8> = Vec::new();
    let mut i: usize = 0;
    while i < hashes.len()
        invariant
            i <= hashes@.len(),
            forall|j: int| 0 <= j < i ==> store@.contains_key(hashes@[j]@),
            out@ == concat_all(stored_chunks(store@, hvs).take(i as int)),
            forall|b: Seq<u8>, c: nat|
                c >= 1 && hvs == #[trigger] hash_list_of(b, c) && store_has_chunks(store@, b, c)
                    ==> out@ == concat_all(chunks_of(b, c).take(i as int)),
        decreases hashes@.len() - i,
    {
        let ghost out_pre = out@;
        match store.load(hashes[i].as_str()) {
            Err(e) => {
                return Err(e);
            },
            Ok(v) => {
                append_bytes(&mut out, v.as_slice());
                proof {
                    assert(hvs[i as int] == hashes@[i as int]@);
                    assert(stored_chunk(store@, hvs[i as int]) == v@);
                    assert(stored_chunks(store@, hvs).take(i + 1) =~= stored_chunks(
                        store@,
                        hvs,
                    ).take(i as int).push(stored_chunk(store@, hvs[i as int])));
                    lemma_concat_all_push(
                        stored_chunks(store@, hvs).take(i as int),
                        stored_chunk(store@, hvs[i as int]),
                    );
                    assert forall|b: Seq<u8>, c: nat|
                        c >= 1 && hvs == #[trigger] hash_list_of(b, c) && store_has_chunks(
                            store@,
                            b,
                            c,
                        ) implies out@ == concat_all(chunks_of(b, c).take(i + 1)) by {
                        let chs = chunks_of(b, c);
                        assert(hvs.len() == hashes@.len());
                        assert(chs.len() == hvs.len());
                        assert(hvs[i as int] == hashes@[i as int]@);
                        assert(hash_list_of(b, c)[i as int] == chunk_hash(chunks_of(b, c)[i as int]));
                        assert(store@.contains_key(chunk_hash(#[trigger] chunks_of(b, c)[i as int]))
                            && zstd_decoded(store@[chunk_hash(chunks_of(b, c)[i as int])]) == Some(
                            chunks_of(b, c)[i as int],
                        ));
                        assert(zstd_decoded(store@[hvs[i as int]]) == Some(chs[i as int]));
                        assert(v@ == chs[i as int]);
                        assert(chs.take(i + 1) =~= chs.take(i as int).push(chs[i as int]));
                        lemma_concat_all_push(chs.take(i as int), chs[i as int]);
                        assert(out@ == out_pre + v@);
                    }
                }
            },
        }
        i = i + 1;
    }
    proof {
        assert(hvs.len() == hashes@.len());
        assert(stored_chunks(store@, hvs).take(hvs.len() as int) =~= stored_chunks(store@, hvs));
        assert forall|b: Seq<u8>, c: nat|
            c >= 1 && hvs == #[trigger] hash_list_of(b, c) && store_has_chunks(store@, b, c)
                implies out@ == b by {
            let chs = chunks_of(b, c);
            assert(chs.len() == hvs.len());
            assert(chs.take(chs.len() as int) =~= chs);
            lemma_chunks_concat(b, c);
        }
    }
    Ok(out)
}

} // verus!
