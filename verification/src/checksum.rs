//! Checksums computed a piece at a time, so a large file can be hashed as it is read:
//! the MD5 of a download and the CRC-32 of a cached asset bundle.

use vstd::prelude::*;
use crate::steam::crc32;
use crate::text::hex_lower;

verus! {

#[verifier::external_type_specification]
#[verifier::external_body]
pub struct ExCrc32Hasher(crc32fast::Hasher);

/// The MD5 digest of a byte string (16 bytes).
pub uninterp spec fn md5(bytes: Seq<u8>) -> Seq<u8>;

/// An md-5 hasher, kept opaque: only the wrappers below touch it, and what it has been
/// fed is named by [`md5_fed`].
#[verifier::external_body]
pub struct Md5Hasher {
    h: md5::Md5,
}

/// The bytes an md-5 hasher has been fed since it was made.
pub uninterp spec fn md5_fed(h: Md5Hasher) -> Seq<u8>;

/// The bytes a `crc32fast::Hasher` has been fed since it was made.
pub uninterp spec fn crc32_fed(h: crc32fast::Hasher) -> Seq<u8>;

/// `Md5::new` (md-5, through `Digest::new`): a hasher fed nothing yet.
#[verifier::external_body]
fn md5_new() -> (h: Md5Hasher)
    ensures
        md5_fed(h) == Seq::<u8>::empty(),
{
    Md5Hasher { h: md5::Digest::new() }
}

/// `Digest::update` on an md-5 hasher: `chunk` is fed after what came before.
#[verifier::external_body]
fn md5_update(h: &mut Md5Hasher, chunk: &[u8])
    ensures
        md5_fed(*final(h)) == md5_fed(*old(h)) + chunk@,
{
    md5::Digest::update(&mut h.h, chunk)
}

/// `Digest::finalize` on an md-5 hasher: the MD5 digest of everything it was fed.
#[verifier::external_body]
fn md5_finalize(h: Md5Hasher) -> (r: Vec<u8>)
    ensures
        r@ == md5(md5_fed(h)),
{
    md5::Digest::finalize(h.h).to_vec()
}

/// `crc32fast::Hasher::new`: a hasher fed nothing yet.
#[verifier::external_body]
fn crc32_new() -> (h: crc32fast::Hasher)
    ensures
        crc32_fed(h) == Seq::<u8>::empty(),
{
    crc32fast::Hasher::new()
}

/// `crc32fast::Hasher::update`: `chunk` is fed after what came before. The hasher counts
/// the bytes in a `u64`, which must not overflow.
#[verifier::external_body]
fn crc32_update(h: &mut crc32fast::Hasher, chunk: &[u8])
    requires
        crc32_fed(*old(h)).len() + chunk@.len() <= u64::MAX,
    ensures
        crc32_fed(*final(h)) == crc32_fed(*old(h)) + chunk@,
{
    h.update(chunk)
}

/// `crc32fast::Hasher::finalize`: the CRC-32 of everything the hasher was fed.
#[verifier::external_body]
fn crc32_finalize(h: crc32fast::Hasher) -> (r: u32)
    ensures
        r == crc32(crc32_fed(h)),
{
    h.finalize()
}

/// An MD5 computation in progress; its view is the bytes hashed so far.
pub struct Md5State {
    h: Md5Hasher,
}

impl View for Md5State {
    type V = Seq<u8>;

    closed spec fn view(&self) -> Seq<u8> {
        md5_fed(self.h)
    }
}

impl Md5State {
    /// Nothing hashed yet.
    pub fn new() -> (r: Md5State)
        ensures
            r@ == Seq::<u8>::empty(),
    {
        Md5State { h: md5_new() }
    }

    /// Hash `chunk` after what was hashed before.
    pub fn update(&mut self, chunk: &[u8])
        ensures
            final(self)@ == old(self)@ + chunk@,
    {
        md5_update(&mut self.h, chunk)
    }

    /// The MD5 of everything hashed, as lowercase hex.
    pub fn finish_hex(self) -> (r: String)
        ensures
            r@ == hex_lower(md5(self@)),
    {
        let d = md5_finalize(self.h);
        crate::yoo::hex_encode(d.as_slice())
    }
}

/// A CRC-32 computation in progress; its view is the bytes hashed so far.
pub struct Crc32State {
    h: crc32fast::Hasher,
}

impl View for Crc32State {
    type V = Seq<u8>;

    closed spec fn view(&self) -> Seq<u8> {
        crc32_fed(self.h)
    }
}

impl Crc32State {
    /// Nothing hashed yet.
    pub fn new() -> (r: Crc32State)
        ensures
            r@ == Seq::<u8>::empty(),
    {
        Crc32State { h: crc32_new() }
    }

    /// Hash `chunk` after what was hashed before (at most `u64::MAX` bytes in all).
    pub fn update(&mut self, chunk: &[u8])
        requires
            old(self)@.len() + chunk@.len() <= u64::MAX,
        ensures
            final(self)@ == old(self)@ + chunk@,
    {
        crc32_update(&mut self.h, chunk)
    }

    /// The CRC-32 of everything hashed.
    pub fn finish(self) -> (r: u32)
        ensures
            r == crc32(self@),
    {
        crc32_finalize(self.h)
    }

    /// The CRC-32 of everything hashed, as YooAsset writes it: lowercase hex of its
    /// little-endian bytes.
    pub fn finish_hex(self) -> (r: String)
        ensures
            r@ == hex_lower(crate::steam::binary_vdf::le_bytes(crc32(self@))),
    {
        crate::yoo::crc_hex(crc32_finalize(self.h))
    }
}

} // verus!
