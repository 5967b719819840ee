use yaccgl_core::checksum::{Crc32State, Md5State};
use yaccgl_core::download::md5_matches;

#[test]
fn md5_of_known_content() {
    // The content arrives in pieces, as a file is read.
    let mut h = Md5State::new();
    h.update(b"hello");
    h.update(b" world");
    let sum = h.finish_hex();
    assert_eq!(sum, "5eb63bbbe01eeed093cb22bb8f5acdc3");
    assert!(md5_matches(&sum, "5EB63BBBE01EEED093CB22BB8F5ACDC3"));
}

#[test]
fn md5_of_nothing() {
    assert_eq!(Md5State::new().finish_hex(), "d41d8cd98f00b204e9800998ecf8427e");
}

#[test]
fn crc_of_pieces_matches_crc_of_whole() {
    let mut h = Crc32State::new();
    h.update(b"hel");
    h.update(b"lo");
    assert_eq!(h.finish(), crc32fast::hash(b"hello"));
    let mut h = Crc32State::new();
    h.update(b"hello");
    assert_eq!(h.finish_hex(), "86a61036");
}
