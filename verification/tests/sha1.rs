//! SHA-1 against reference vectors.

use snapref::sha1::{digest, hex};

#[test]
fn empty_input_matches_reference_vector() {
    assert_eq!(hex(b""), "da39a3ee5e6b4b0d3255bfef95601890afd80709");
}

#[test]
fn abc_matches_reference_vector() {
    assert_eq!(hex(b"abc"), "a9993e364706816aba3e25717850c26c9cd0d89d");
}

#[test]
fn two_block_nist_vector() {
    // Crosses the 64-byte block boundary, exercising multi-chunk processing.
    assert_eq!(
        hex(b"abcdbcdecdefdefgefghfghighijhijkijkljklmklmnlmnomnopnopq"),
        "84983e441c3bd26ebaae4aa1f95129e5e54670f1"
    );
}

#[test]
fn million_a_nist_vector() {
    // The classic long-message vector; catches length-encoding bugs.
    let data = vec![b'a'; 1_000_000];
    assert_eq!(hex(&data), "34aa973cd4c4daa4f61eeb2bdbad27316534016f");
}

#[test]
fn git_empty_blob_id_is_reproduced() {
    // `git hash-object` of an empty file: blob ids must agree.
    assert_eq!(hex(b"blob 0\0"), "e69de29bb2d1d6434b8b29ae775ad8c2e48c5391");
}

#[test]
fn git_hello_world_blob_id_is_reproduced() {
    // `echo "hello world" | git hash-object --stdin`
    assert_eq!(
        hex(b"blob 12\0hello world\n"),
        "3b18e512dba79e4c8300dd08aeb37f8e728b8dad"
    );
}

#[test]
fn raw_digest_has_the_bytes_of_the_hex_form() {
    let raw = digest(b"abc");
    assert_eq!(raw.len(), 20);
    assert_eq!(raw[0], 0xa9);
    assert_eq!(raw[1], 0x99);
    assert_eq!(raw[19], 0x9d);
}

#[test]
fn padding_boundaries_hash_correctly() {
    // 55 bytes fit one block with the length, 56 need a second one.
    assert_eq!(hex(&vec![b'a'; 55]), "c1c8bbdc22796e28c0e15163d20899b65621d65a");
    assert_eq!(hex(&vec![b'a'; 56]), "c2db330f6083854c99d4b5bfb6e8f29f201be699");
    assert_eq!(hex(&vec![b'a'; 64]), "0098ba824b5c16427bd7a1122a5a442a25ec644d");
}
