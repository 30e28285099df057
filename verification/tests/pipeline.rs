use chunkstore::chunking::{reconstruct_all, split_file_and_save};
use chunkstore::cry::{decrypt_by_des, encrypt_by_des, encrypt_by_md5};
use chunkstore::errors::CoreError;
use chunkstore::hashing::{get_sha256_string, sum_sha256};
use chunkstore::metadata::{decode_metadata, encode_metadata, Metadata};
use chunkstore::store::{path_from_hash, ChunkStore, DecompressStream};

#[test]
fn scenario_two_chunks_then_dedup() {
    let mut store = ChunkStore::new();
    let (size, hashes) = split_file_and_save(&mut store, b"AAAAABBBBB", 5).unwrap();
    assert_eq!(size, 10);
    assert_eq!(hashes.len(), 2);
    assert_ne!(hashes[0], hashes[1]);
    assert_eq!(store.chunk_count(), 2);
    let (size2, hashes2) = split_file_and_save(&mut store, b"AAAAACCCCC", 5).unwrap();
    assert_eq!(size2, 10);
    assert_eq!(hashes2.len(), 2);
    assert_eq!(hashes[0], hashes2[0]);
    assert_ne!(hashes2[0], hashes2[1]);
    assert_eq!(store.chunk_count(), 3);
}

#[test]
fn round_trip_reproduces_input() {
    let mut data = Vec::new();
    for i in 0..1000usize {
        data.push((i % 251) as u8);
    }
    let mut store = ChunkStore::new();
    let (size, hashes) = split_file_and_save(&mut store, &data, 7).unwrap();
    assert_eq!(size, data.len());
    let rebuilt = reconstruct_all(&store, &hashes).unwrap();
    assert_eq!(rebuilt, data);
}

#[test]
fn dedup_idempotence_second_call_writes_nothing() {
    let data = b"the quick brown fox jumps over the lazy dog";
    let mut store = ChunkStore::new();
    let (_, hashes1) = split_file_and_save(&mut store, data, 8).unwrap();
    let count_after_first = store.chunk_count();
    let (_, hashes2) = split_file_and_save(&mut store, data, 8).unwrap();
    assert_eq!(hashes1, hashes2);
    assert_eq!(store.chunk_count(), count_after_first);
}

#[test]
fn empty_input_yields_nothing() {
    let mut store = ChunkStore::new();
    let (size, hashes) = split_file_and_save(&mut store, b"", 4).unwrap();
    assert_eq!(size, 0);
    assert!(hashes.is_empty());
    assert_eq!(store.chunk_count(), 0);
    let rebuilt = reconstruct_all(&store, &hashes).unwrap();
    assert!(rebuilt.is_empty());
}

#[test]
fn boundary_chunking_exact_multiple() {
    let mut store = ChunkStore::new();
    let (size, hashes) = split_file_and_save(&mut store, b"abcdefghijkl", 4).unwrap();
    assert_eq!(size, 12);
    assert_eq!(hashes.len(), 3);
}

#[test]
fn boundary_chunking_with_remainder() {
    let mut store = ChunkStore::new();
    let (size, hashes) = split_file_and_save(&mut store, b"abcdefghijklmn", 4).unwrap();
    assert_eq!(size, 14);
    assert_eq!(hashes.len(), 4);
    // the short final chunk differs from the full chunks
    assert_ne!(hashes[0], hashes[3]);
}

#[test]
fn equal_chunks_share_one_payload() {
    let mut store = ChunkStore::new();
    let (_, hashes) = split_file_and_save(&mut store, b"abcdabcd", 4).unwrap();
    assert_eq!(hashes.len(), 2);
    assert_eq!(hashes[0], hashes[1]);
    assert_eq!(store.chunk_count(), 1);
}

#[test]
fn stored_chunk_loads_back_decompressed() {
    let mut store = ChunkStore::new();
    let (_, hashes) = split_file_and_save(&mut store, b"hello chunk store", 100).unwrap();
    assert_eq!(hashes.len(), 1);
    let loaded = store.load(&hashes[0]).unwrap();
    assert_eq!(loaded, b"hello chunk store");
}

#[test]
fn load_missing_hash_is_not_found() {
    let store = ChunkStore::new();
    match store.load("AAAABBBB") {
        Err(CoreError::NotFound) => {},
        other => panic!("expected NotFound, got {:?}", other),
    }
}

#[test]
fn reconstruct_missing_hash_is_not_found() {
    let store = ChunkStore::new();
    let hashes = vec![String::from("AAAABBBBCCCC")];
    match reconstruct_all(&store, &hashes) {
        Err(CoreError::NotFound) => {},
        other => panic!("expected NotFound, got {:?}", other),
    }
}

#[test]
fn stream_pulls_chunks_in_order_then_ends() {
    let mut store = ChunkStore::new();
    let (_, hashes) = split_file_and_save(&mut store, b"AAAAABBBBB", 5).unwrap();
    let mut stream = DecompressStream::new(hashes);
    let first = stream.next_chunk(&store).unwrap().unwrap();
    assert_eq!(first, b"AAAAA");
    let second = stream.next_chunk(&store).unwrap().unwrap();
    assert_eq!(second, b"BBBBB");
    assert!(stream.next_chunk(&store).is_none());
}

#[test]
fn stream_reports_missing_chunk_distinctly() {
    let store = ChunkStore::new();
    let mut stream = DecompressStream::new(vec![String::from("AAAABBBB")]);
    match stream.next_chunk(&store) {
        Some(Err(CoreError::NotFound)) => {},
        other => panic!("expected NotFound, got {:?}", other),
    }
}

#[test]
fn path_shape_and_determinism() {
    let hash = sum_sha256(b"abc");
    assert_eq!(hash.len(), 64);
    let p1 = path_from_hash(&hash);
    let p2 = path_from_hash(&hash);
    assert_eq!(p1, p2);
    let expected = format!("data/file/{}/{}/{}", &hash[0..1], &hash[1..3], &hash[3..]);
    assert_eq!(p1, expected);
    let segments: Vec<&str> = p1.split('/').collect();
    assert_eq!(segments.len(), 5);
    assert_eq!(segments[2].len(), 1);
    assert_eq!(segments[3].len(), 2);
    assert_eq!(segments[4].len(), 61);
}

#[test]
fn sha256_known_vectors_uppercase() {
    assert_eq!(
        sum_sha256(b"abc"),
        "BA7816BF8F01CFEA414140DE5DAE2223B00361A396177A9CB410FF61F20015AD"
    );
    assert_eq!(
        sum_sha256(b""),
        "E3B0C44298FC1C149AFBF4C8996FB92427AE41E4649B934CA495991B7852B855"
    );
}

#[test]
fn hex_rendering_is_two_digits_per_byte() {
    assert_eq!(get_sha256_string(&[0x00, 0xff, 0x1a]), "00FF1A");
    assert_eq!(get_sha256_string(&[]), "");
}

#[test]
fn md5_known_vectors() {
    assert_eq!(encrypt_by_md5(""), "d41d8cd98f00b204e9800998ecf8427e");
    assert_eq!(encrypt_by_md5("abc"), "900150983cd24fb0d6963f7d28e17f72");
}

#[test]
fn des_transform_round_trips() {
    let sealed = encrypt_by_des("chunk metadata").unwrap();
    let opened = decrypt_by_des(&sealed).unwrap();
    assert_eq!(opened, "chunk metadata");
}

#[test]
fn metadata_round_trip_field_for_field() {
    let mut store = ChunkStore::new();
    let (size, chunks) = split_file_and_save(&mut store, b"AAAAABBBBB", 5).unwrap();
    let m = Metadata {
        name: String::from("h\u{e9}llo w\u{f6}rld \u{2713}.txt"),
        size: size as u64,
        file_type: String::from("text/plain"),
        time: 1700000000,
        chunks,
    };
    let bytes = encode_metadata(&m);
    let m2 = decode_metadata(&bytes).unwrap();
    assert_eq!(m2, m);
}

#[test]
fn metadata_empty_record_round_trips() {
    let m = Metadata {
        name: String::new(),
        size: 0,
        file_type: String::new(),
        time: 0,
        chunks: Vec::new(),
    };
    let bytes = encode_metadata(&m);
    let m2 = decode_metadata(&bytes).unwrap();
    assert_eq!(m2, m);
}

#[test]
fn metadata_corrupt_archives_are_rejected() {
    match decode_metadata(&[]) {
        Err(CoreError::Corrupt) => {},
        other => panic!("expected Corrupt, got {:?}", other),
    }
    let m = Metadata {
        name: String::from("a"),
        size: 1,
        file_type: String::from("b"),
        time: 2,
        chunks: vec![String::from("CAFE")],
    };
    let mut bytes = encode_metadata(&m);
    // trailing garbage is rejected
    bytes.push(0);
    match decode_metadata(&bytes) {
        Err(CoreError::Corrupt) => {},
        other => panic!("expected Corrupt, got {:?}", other),
    }
    // a truncated archive is rejected
    bytes.pop();
    bytes.pop();
    match decode_metadata(&bytes) {
        Err(CoreError::Corrupt) => {},
        other => panic!("expected Corrupt, got {:?}", other),
    }
}

#[test]
fn is_path_exist_tracks_saved_hashes() {
    let mut store = ChunkStore::new();
    let h = sum_sha256(b"zzzz");
    assert!(!store.is_path_exist(&h));
    let (_, hashes) = split_file_and_save(&mut store, b"zzzz", 4).unwrap();
    assert_eq!(hashes[0], h);
    assert!(store.is_path_exist(&h));
}

#[test]
fn write_then_read_path_end_to_end() {
    let mut store = ChunkStore::new();
    let data: Vec<u8> = (0..100u8).collect();
    let (size, hashes) = split_file_and_save(&mut store, &data, 9).unwrap();
    let m = Metadata {
        name: String::from("f.bin"),
        size: size as u64,
        file_type: String::from("application/octet-stream"),
        time: 1700000001,
        chunks: hashes,
    };
    let sealed = encode_metadata(&m);
    let m2 = decode_metadata(&sealed).unwrap();
    assert_eq!(m2.size as usize, data.len());
    let rebuilt = reconstruct_all(&store, &m2.chunks).unwrap();
    assert_eq!(rebuilt, data);
}
