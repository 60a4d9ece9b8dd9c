//! Checksums: the fast one that snapshots hold, and those for people to
//! compare.
use vstd::prelude::*;
use xxhash_rust::xxh3::Xxh3;
use sha2::{Digest, Sha256};
use md5::Md5;
use crate::text::{hex, hex_text};

verus! {

/// `xxhash_rust::xxh3::Xxh3`, a hasher that is fed piece by piece.
#[verifier::external_type_specification]
#[verifier::external_body]
pub struct ExXxh3(Xxh3);

/// The bytes that an XXH3 hasher has been fed.
pub uninterp spec fn xxh3_fed(hasher: Xxh3) -> Seq<u8>;

/// The 64-bit XXH3 checksum of some bytes.
pub uninterp spec fn xxh3_64(data: Seq<u8>) -> u64;

/// Calls `Xxh3::new`: a hasher that has been fed nothing.
#[verifier::external_body]
fn xxh3_new() -> (r: Xxh3)
    ensures
        xxh3_fed(r) == Seq::<u8>::empty(),
{
    Xxh3::new()
}

/// Calls `Xxh3::update`: the bytes follow those fed before.
#[verifier::external_body]
fn xxh3_update(hasher: &mut Xxh3, data: &[u8])
    ensures
        xxh3_fed(*final(hasher)) == xxh3_fed(*old(hasher)) + data@,
{
    hasher.update(data);
}

/// Calls `Xxh3::digest`: the checksum of all bytes fed, however they were cut.
#[verifier::external_body]
fn xxh3_digest(hasher: &Xxh3) -> (r: u64)
    ensures
        r == xxh3_64(xxh3_fed(*hasher)),
{
    hasher.digest()
}

/// The checksum of a file, computed while the file is read.
pub struct FileHasher {
    hasher: Xxh3,
}

impl View for FileHasher {
    type V = Seq<u8>;

    closed spec fn view(&self) -> Seq<u8> {
        xxh3_fed(self.hasher)
    }
}

impl FileHasher {
    /// Nothing read yet.
    pub fn new() -> (r: FileHasher)
        ensures
            r@ == Seq::<u8>::empty(),
    {
        FileHasher { hasher: xxh3_new() }
    }

    /// Takes the next bytes of the file.
    pub fn update(&mut self, data: &[u8])
        ensures
            final(self)@ == old(self)@ + data@,
    {
        xxh3_update(&mut self.hasher, data);
    }

    /// The checksum of what has been read.
    pub fn digest(&self) -> (r: u64)
        ensures
            r == xxh3_64(self@),
    {
        xxh3_digest(&self.hasher)
    }
}

/// The checksum that a snapshot holds for a file with these contents.
pub fn hash_file(contents: &[u8]) -> (r: u64)
    ensures
        r == xxh3_64(contents@),
{
    let mut hasher = FileHasher::new();
    hasher.update(contents);
    assert(hasher@ =~= contents@);
    hasher.digest()
}

/// The SHA-256 of some bytes.
pub uninterp spec fn sha256(data: Seq<u8>) -> Seq<u8>;

/// Calls `Sha256::digest`: the digest of the bytes, 32 bytes long.
#[verifier::external_body]
fn sha256_digest(data: &[u8]) -> (r: Vec<u8>)
    ensures
        r@ == sha256(data@),
        r@.len() == 32,
{
    Sha256::digest(data).to_vec()
}

/// The SHA-256 of a file with these contents, in hexadecimal.
pub fn compute_sha256(contents: &[u8]) -> (r: String)
    ensures
        r@ == hex(sha256(contents@)),
{
    hex_text(sha256_digest(contents).as_slice())
}

/// The MD5 of some bytes.
pub uninterp spec fn md5(data: Seq<u8>) -> Seq<u8>;

/// Calls `Md5::digest`: the digest of the bytes, 16 bytes long.
#[verifier::external_body]
fn md5_digest(data: &[u8]) -> (r: Vec<u8>)
    ensures
        r@ == md5(data@),
        r@.len() == 16,
{
    Md5::digest(data).to_vec()
}

/// The MD5 of a file with these contents, in hexadecimal.
pub fn compute_md5(contents: &[u8]) -> (r: String)
    ensures
        r@ == hex(md5(contents@)),
{
    hex_text(md5_digest(contents).as_slice())
}

/// The BLAKE3 hash of some bytes.
pub uninterp spec fn blake3_hash(data: Seq<u8>) -> Seq<u8>;

/// Calls `blake3::hash`: the hash of the bytes, 32 bytes long.
#[verifier::external_body]
fn blake3_digest(data: &[u8]) -> (r: Vec<u8>)
    ensures
        r@ == blake3_hash(data@),
        r@.len() == 32,
{
    blake3::hash(data).as_bytes().to_vec()
}

/// The BLAKE3 hash of a file with these contents, in hexadecimal.
pub fn compute_blake3(contents: &[u8]) -> (r: String)
    ensures
        r@ == hex(blake3_hash(contents@)),
{
    hex_text(blake3_digest(contents).as_slice())
}

} // verus!
