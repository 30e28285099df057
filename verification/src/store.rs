//! The chunk store: content-addressed, immutable chunk payloads keyed by
//! their hash, together with the hash-derived path mapping and the pull-based
//! reconstruction stream.
//!
//! The store models the on-disk chunk tree as a map from hash to compressed
//! payload; its invariant is that every payload decodes to content whose hash
//! is the key it sits under.

use crate::compress::{decompress_chunk, zstd_decoded};
use crate::errors::CoreError;
use crate::hashing::chunk_hash;
use vstd::prelude::*;
use vstd::string::*;

verus! {

/// The sharded path of a hash: `data/file/<h0>/<h1h2>/<h3..>`. A pure
/// function of the hash, total over hashes of at least four characters.
pub open spec fn path_of_hash(h: Seq<char>) -> Seq<char> {
    "data/file/"@ + h.subrange(0, 1) + "/"@ + h.subrange(1, 3) + "/"@ + h.subrange(
        3,
        h.len() as int,
    )
}

/// Maps a hash string to its sharded storage path: first character, next two
/// characters, remainder, under the fixed storage root.
pub fn path_from_hash(hash: &str) -> (r: String)
    requires
        hash@.len() >= 4,
    ensures
        r@ == path_of_hash(hash@),
{
    let n = hash.unicode_len();
    let prefix = hash.substring_char(0, 1);
    let subprefix = hash.substring_char(1, 3);
    let suffix = hash.substring_char(3, n);
    let mut p = "data/file/".to_owned();
    p.append(prefix);
    p.append("/");
    p.append(subprefix);
    p.append("/");
    p.append(suffix);
    proof {
        assert(p@ =~= path_of_hash(hash@));
    }
    p
}

/// Path determinism and shape: the path is a pure function of the hash, and
/// past the fixed `data/file/` root it has exactly three hash-derived
/// segments, of one, two, and the remaining characters, separated by `/`.
/// For a 64-character hash the segments have lengths 1, 2 and 61.
pub proof fn lemma_path_segments(h: Seq<char>)
    requires
        h.len() >= 4,
    ensures
        path_of_hash(h).len() == h.len() + 12,
        path_of_hash(h).subrange(10, 11) == h.subrange(0, 1),
        path_of_hash(h)[11] == '/',
        path_of_hash(h).subrange(12, 14) == h.subrange(1, 3),
        path_of_hash(h)[14] == '/',
        path_of_hash(h).subrange(15, path_of_hash(h).len() as int) == h.subrange(3, h.len() as int),
{
    reveal_strlit("data/file/");
    reveal_strlit("/");
    assert(path_of_hash(h).subrange(10, 11) =~= h.subrange(0, 1));
    assert(path_of_hash(h).subrange(12, 14) =~= h.subrange(1, 3));
    assert(path_of_hash(h).subrange(15, path_of_hash(h).len() as int) =~= h.subrange(
        3,
        h.len() as int,
    ));
}

/// String equality, decided on the UTF-8 bytes.
pub fn str_eq(a: &str, b: &str) -> (r: bool)
    ensures
        r == (a@ == b@),
{
    let ab = a.as_bytes();
    let bb = b.as_bytes();
    proof {
        vstd::utf8::encode_utf8_decode_utf8(a@);
        vstd::utf8::encode_utf8_decode_utf8(b@);
    }
    if ab.len() != bb.len() {
        return false;
    }
    let mut i: usize = 0;
    while i < ab.len()
        invariant
            i <= ab.len(),
            ab@.len() == bb@.len(),
            ab@ == a.spec_bytes(),
            bb@ == b.spec_bytes(),
            forall|j: int| 0 <= j < i ==> ab@[j] == bb@[j],
        decreases ab.len() - i,
    {
        if ab[i] != bb[i] {
            proof {
                vstd::utf8::encode_utf8_decode_utf8(a@);
                vstd::utf8::encode_utf8_decode_utf8(b@);
            }
            return false;
        }
        i = i + 1;
    }
    proof {
        assert(ab@ =~= bb@);
        vstd::utf8::encode_utf8_decode_utf8(a@);
        vstd::utf8::encode_utf8_decode_utf8(b@);
    }
    true
}

/// The views of a list of hash strings.
pub open spec fn views_of(hs: Seq<String>) -> Seq<Seq<char>> {
    hs.map_values(|s: String| s@)
}

/// A stored payload is well formed under a hash when it decodes, and the
/// decoded content's hash is that very hash: the basis of content addressing.
pub open spec fn entry_ok(h: Seq<char>, frame: Seq<u8>) -> bool {
    zstd_decoded(frame) matches Some(content) && chunk_hash(content) == h
}

/// The chunk store: compressed chunk payloads keyed by content hash.
pub struct ChunkStore {
    entries: Vec<(String, Vec<u8>)>,
}

impl ChunkStore {
    /// The store as a map from hash to stored compressed payload.
    pub closed spec fn view(&self) -> Map<Seq<char>, Seq<u8>> {
        Map::new(
            |h: Seq<char>|
                exists|i: int| 0 <= i < self.entries@.len() && self.entries@[i].0@ == h,
            |h: Seq<char>|
                {
                    let i = choose|i: int|
                        0 <= i < self.entries@.len() && self.entries@[i].0@ == h;
                    self.entries@[i].1@
                },
        )
    }

    /// How many chunk payloads the store holds; chunks are never deleted, so
    /// this is also how many distinct chunk writes have happened.
    pub closed spec fn spec_chunk_count(&self) -> nat {
        self.entries@.len()
    }

    /// Well-formedness: one entry per hash, and every payload decodes to
    /// content with the hash it is stored under.
    pub closed spec fn wf(&self) -> bool {
        &&& forall|i: int, j: int|
            0 <= i < j < self.entries@.len() ==> self.entries@[i].0@ != self.entries@[j].0@
        &&& forall|i: int|
            0 <= i < self.entries@.len() ==> entry_ok(
                self.entries@[i].0@,
                self.entries@[i].1@,
            )
    }

    pub fn new() -> (s: Self)
        ensures
            s@ == Map::<Seq<char>, Seq<u8>>::empty(),
            s.wf(),
            s.spec_chunk_count() == 0,
    {
        let s = ChunkStore { entries: Vec::new() };
        proof {
            assert(s@ =~= Map::<Seq<char>, Seq<u8>>::empty());
        }
        s
    }

    /// The index holding `hash`, if any.
    fn find(&self, hash: &str) -> (r: Option<usize>)
        requires
            self.wf(),
        ensures
            r matches Some(i) ==> i < self.entries@.len() && self.entries@[i as int].0@ == hash@
                && self@.contains_key(hash@) && self@[hash@] == self.entries@[i as int].1@,
            r is None ==> !self@.contains_key(hash@),
    {
        let mut i: usize = 0;
        while i < self.entries.len()
            invariant
                i <= self.entries@.len(),
                forall|j: int| 0 <= j < i ==> self.entries@[j].0@ != hash@,
            decreases self.entries@.len() - i,
        {
            if str_eq(self.entries[i].0.as_str(), hash) {
                proof {
                    assert(self@.contains_key(hash@));
                    let k = choose|k: int|
                        0 <= k < self.entries@.len() && self.entries@[k].0@ == hash@;
                    if k < i {
                        assert(self.entries@[k].0@ != self.entries@[i as int].0@);
                    } else if i < k {
                        assert(self.entries@[i as int].0@ != self.entries@[k].0@);
                    }
                    assert(k == i);
                }
                return Some(i);
            }
            i = i + 1;
        }
        None
    }

    /// True iff a payload exists under `hash`.
    pub fn is_path_exist(&self, hash: &str) -> (r: bool)
        requires
            self.wf(),
        ensures
            r == self@.contains_key(hash@),
    {
        self.find(hash).is_some()
    }

    /// Persists one compressed chunk payload under its content hash. A
    /// payload for an already-present hash is skipped: content for a given
    /// hash is invariant, so a redundant save changes nothing.
    pub fn save_file(&mut self, hash: &str, data: Vec<u8>)
        requires
            old(self).wf(),
            entry_ok(hash@, data@),
        ensures
            final(self).wf(),
            old(self)@.contains_key(hash@) ==> final(self)@ == old(self)@ && final(self).spec_chunk_count() == old(self).spec_chunk_count(),
            !old(self)@.contains_key(hash@) ==> final(self)@ == old(self)@.insert(hash@, data@)
                && final(self).spec_chunk_count() == old(self).spec_chunk_count() + 1,
    {
        match self.find(hash) {
            Some(_) => {
            },
            None => {
                let ghost pre = *self;
                self.entries.push((hash.to_owned(), data));
                proof {
                    let n = pre.entries@.len();
                    assert(self.entries@ == pre.entries@.push(
                        (self.entries@[n as int].0, self.entries@[n as int].1),
                    ));
                    assert(self.entries@[n as int].0@ == hash@);
                    assert(self.entries@[n as int].1@ == data@);
                    assert forall|j: int| 0 <= j < n implies self.entries@[j].0@ != hash@ by {
                        if self.entries@[j].0@ == hash@ {
                            assert(pre@.contains_key(hash@));
                        }
                    }
                    assert(self.wf());
                    assert forall|h: Seq<char>| #[trigger]
                        self@.contains_key(h) == pre@.insert(hash@, data@).contains_key(h) by {
                        if h == hash@ {
                            assert(self.entries@[n as int].0@ == h);
                            assert(self@.contains_key(h));
                        } else {
                            if self@.contains_key(h) {
                                let k = choose|k: int|
                                    0 <= k < self.entries@.len() && self.entries@[k].0@ == h;
                                assert(k < n);
                                assert(pre@.contains_key(h));
                            }
                            if pre@.contains_key(h) {
                                let k = choose|k: int|
                                    0 <= k < pre.entries@.len() && pre.entries@[k].0@ == h;
                                assert(self.entries@[k].0@ == h);
                            }
                        }
                    }
                    assert forall|h: Seq<char>| self@.contains_key(h) implies self@[h]
                        == pre@.insert(hash@, data@)[h] by {
                        let k = choose|k: int|
                            0 <= k < self.entries@.len() && self.entries@[k].0@ == h;
                        if h == hash@ {
                            assert(k == n);
                            assert(self@[h] == data@);
                        } else {
                            assert(k < n);
                            assert(pre@.contains_key(h));
                            let k2 = choose|k2: int|
                                0 <= k2 < pre.entries@.len() && pre.entries@[k2].0@ == h;
                            assert(k2 == k);
                            assert(self@[h] == pre@[h]);
                        }
                    }
                    assert(self@ =~= pre@.insert(hash@, data@));
                }
            },
        }
    }

    /// Loads and decompresses the chunk stored under `hash`; fails with
    /// `NotFound` exactly when no payload exists for it.
    pub fn load(&self, hash: &str) -> (r: Result<Vec<u8>, CoreError>)
        requires
            self.wf(),
        ensures
            r matches Ok(v) ==> self@.contains_key(hash@) && zstd_decoded(self@[hash@]) == Some(
                v@,
            ) && chunk_hash(v@) == hash@,
            r is Err ==> r == Err::<Vec<u8>, CoreError>(CoreError::NotFound)
                && !self@.contains_key(hash@),
    {
        match self.find(hash) {
            None => Err(CoreError::NotFound),
            Some(i) => {
                match decompress_chunk(self.entries[i].1.as_slice()) {
                    Ok(v) => Ok(v),
                    Err(_) => {
                        proof {
                            assert(entry_ok(hash@, self@[hash@]));
                            assert(false);
                        }
                        Err(CoreError::Codec)
                    },
                }
            },
        }
    }

    /// The compressed payload stored under `hash`, exactly as it is
    /// persisted on disk.
    pub fn load_raw(&self, hash: &str) -> (r: Option<&Vec<u8>>)
        requires
            self.wf(),
        ensures
            r matches Some(v) ==> self@.contains_key(hash@) && v@ == self@[hash@],
            r is None ==> !self@.contains_key(hash@),
    {
        match self.find(hash) {
            None => None,
            Some(i) => Some(&self.entries[i].1),
        }
    }

    /// How many chunk payloads the store holds.
    pub fn chunk_count(&self) -> (r: usize)
        ensures
            r == self.spec_chunk_count(),
    {
        self.entries.len()
    }
}

/// A stateful, single-pass, forward-only sequence over an ordered hash list:
/// each pull resolves and decompresses exactly one chunk.
pub struct DecompressStream {
    hashes: Vec<String>,
    idx: usize,
}

impl DecompressStream {
    /// The hash list the stream walks, as character sequences.
    pub closed spec fn hash_views(&self) -> Seq<Seq<char>> {
        views_of(self.hashes@)
    }

    /// The cursor: how many chunks have been yielded so far.
    pub closed spec fn cursor(&self) -> int {
        self.idx as int
    }

    pub fn new(hashes: Vec<String>) -> (s: Self)
        ensures
            s.hash_views() == views_of(hashes@),
            s.cursor() == 0,
    {
        DecompressStream { hashes, idx: 0 }
    }

    /// One pull: the next chunk's decompressed bytes, `Some(Err(NotFound))`
    /// when the chunk at the cursor is absent from the store, or `None` when
    /// the list is exhausted — end of input and failure are distinct
    /// outcomes.
    pub fn next_chunk(&mut self, store: &ChunkStore) -> (r: Option<Result<Vec<u8>, CoreError>>)
        requires
            store.wf(),
        ensures
            final(self).hash_views() == old(self).hash_views(),
            old(self).cursor() >= old(self).hash_views().len() ==> r is None && final(self).cursor() == old(self).cursor(),
            old(self).cursor() < old(self).hash_views().len() && store@.contains_key(
                old(self).hash_views()[old(self).cursor()],
            ) ==> (r matches Some(Ok(v)) && zstd_decoded(
                store@[old(self).hash_views()[old(self).cursor()]],
            ) == Some(v@) && chunk_hash(v@) == old(self).hash_views()[old(self).cursor()]
                && final(self).cursor() == old(self).cursor() + 1),
            old(self).cursor() < old(self).hash_views().len() && !store@.contains_key(
                old(self).hash_views()[old(self).cursor()],
            ) ==> r == Some(Err::<Vec<u8>, CoreError>(CoreError::NotFound)) && final(self).cursor() == old(self).cursor(),
    {
        if self.idx >= self.hashes.len() {
            return None;
        }
        let h = &self.hashes[self.idx];
        match store.load(h.as_str()) {
            Ok(v) => {
                self.idx = self.idx + 1;
                Some(Ok(v))
            },
            Err(e) => Some(Err(e)),
        }
    }
}

} // verus!
