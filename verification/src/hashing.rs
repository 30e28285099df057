//! Content hashing: a 256-bit digest of a chunk's bytes, rendered as an
//! uppercase hex string. The hex rendering is verified; the digest itself is
//! computed by an outside hasher and only named here.

use sha2::Digest;
use vstd::prelude::*;

verus! {

/// Digest that the outside hasher computes of a byte sequence; a function of
/// the input bytes alone.
pub uninterp spec fn sha256_of(data: Seq<u8>) -> Seq<u8>;

/// The uppercase hex digit for a nibble value below 16 (`'0'` for anything else).
pub open spec fn hex_upper_digit(n: u8) -> char {
    if n == 0 {
        '0'
    } else if n == 1 {
        '1'
    } else if n == 2 {
        '2'
    } else if n == 3 {
        '3'
    } else if n == 4 {
        '4'
    } else if n == 5 {
        '5'
    } else if n == 6 {
        '6'
    } else if n == 7 {
        '7'
    } else if n == 8 {
        '8'
    } else if n == 9 {
        '9'
    } else if n == 10 {
        'A'
    } else if n == 11 {
        'B'
    } else if n == 12 {
        'C'
    } else if n == 13 {
        'D'
    } else if n == 14 {
        'E'
    } else if n == 15 {
        'F'
    } else {
        '0'
    }
}

/// Uppercase hex rendering of a byte sequence: two digits per byte, high
/// nibble first.
pub open spec fn hex_upper_of(bytes: Seq<u8>) -> Seq<char>
    decreases bytes.len(),
{
    if bytes.len() == 0 {
        Seq::empty()
    } else {
        seq![hex_upper_digit(bytes[0] / 16), hex_upper_digit(bytes[0] % 16)] + hex_upper_of(
            bytes.skip(1),
        )
    }
}

/// The content hash of a chunk: the uppercase hex rendering of its digest.
/// This is the identity under which a chunk is stored and deduplicated.
pub open spec fn chunk_hash(data: Seq<u8>) -> Seq<char> {
    hex_upper_of(sha256_of(data))
}

pub proof fn lemma_hex_upper_len(bytes: Seq<u8>)
    ensures
        hex_upper_of(bytes).len() == 2 * bytes.len(),
    decreases bytes.len(),
{
    if bytes.len() > 0 {
        lemma_hex_upper_len(bytes.skip(1));
    }
}

/// Appending a byte to the input appends its two digits to the rendering.
proof fn lemma_hex_upper_push(bytes: Seq<u8>, b: u8)
    ensures
        hex_upper_of(bytes.push(b)) == hex_upper_of(bytes) + seq![
            hex_upper_digit(b / 16),
            hex_upper_digit(b % 16),
        ],
    decreases bytes.len(),
{
    if bytes.len() == 0 {
        let p = bytes.push(b);
        assert(p.len() == 1);
        assert(p[0] == b);
        assert(p.skip(1) =~= Seq::<u8>::empty());
        assert(hex_upper_of(p) == seq![hex_upper_digit(p[0] / 16), hex_upper_digit(p[0] % 16)]
            + hex_upper_of(p.skip(1)));
        assert(hex_upper_of(p) =~= hex_upper_of(bytes) + seq![
            hex_upper_digit(b / 16),
            hex_upper_digit(b % 16),
        ]);
    } else {
        assert(bytes.push(b).skip(1) =~= bytes.skip(1).push(b));
        lemma_hex_upper_push(bytes.skip(1), b);
        assert(hex_upper_of(bytes.push(b)) =~= hex_upper_of(bytes) + seq![
            hex_upper_digit(b / 16),
            hex_upper_digit(b % 16),
        ]);
    }
}

/// Relies on `sha2::Sha256` (`Digest::digest`): a 256-bit digest, 32 bytes,
/// a function of the input bytes alone.
#[verifier::external_body]
fn get_sha256(data: &[u8]) -> (r: Vec<u8>)
    ensures
        r@ == sha256_of(data@),
        r@.len() == 32,
{
    sha2::Sha256::digest(data).to_vec()
}

/// A one-character string slice holding the uppercase hex digit for `n`.
fn hex_char_str(n: u8) -> (r: &'static str)
    requires
        n < 16,
    ensures
        r@ =~= seq![hex_upper_digit(n)],
{
    proof {
        reveal_strlit("0");
        reveal_strlit("1");
        reveal_strlit("2");
        reveal_strlit("3");
        reveal_strlit("4");
        reveal_strlit("5");
        reveal_strlit("6");
        reveal_strlit("7");
        reveal_strlit("8");
        reveal_strlit("9");
        reveal_strlit("A");
        reveal_strlit("B");
        reveal_strlit("C");
        reveal_strlit("D");
        reveal_strlit("E");
        reveal_strlit("F");
    }
    match n {
        0 => "0",
        1 => "1",
        2 => "2",
        3 => "3",
        4 => "4",
        5 => "5",
        6 => "6",
        7 => "7",
        8 => "8",
        9 => "9",
        10 => "A",
        11 => "B",
        12 => "C",
        13 => "D",
        14 => "E",
        _ => "F",
    }
}

/// Renders a digest as an uppercase hex string, two digits per byte.
pub fn get_sha256_string(hash: &[u8]) -> (r: String)
    ensures
        r@ == hex_upper_of(hash@),
        r@.len() == 2 * hash@.len(),
{
    let mut s = String::new();
    let mut i: usize = 0;
    while i < hash.len()
        invariant
            i <= hash.len(),
            s@ == hex_upper_of(hash@.take(i as int)),
        decreases hash.len() - i,
    {
        let b = hash[i];
        s.append(hex_char_str(b / 16));
        s.append(hex_char_str(b % 16));
        proof {
            lemma_hex_upper_push(hash@.take(i as int), b);
            assert(hash@.take(i as int).push(b) =~= hash@.take(i + 1 as int));
        }
        i = i + 1;
    }
    proof {
        assert(hash@.take(hash@.len() as int) =~= hash@);
        lemma_hex_upper_len(hash@);
    }
    s
}

/// The content hash of a byte buffer: its digest, rendered uppercase hex.
/// A pure function of the bytes, 64 characters long.
pub fn sum_sha256(data: &[u8]) -> (r: String)
    ensures
        r@ == chunk_hash(data@),
        r@.len() == 64,
{
    let digest = get_sha256(data);
    get_sha256_string(digest.as_slice())
}

} // verus!
