//! 64-bit FNV-1a digests in hexadecimal.

use vstd::prelude::*;
use vstd::utf8::encode_utf8;
use crate::text::{hex, hex_of, Text};

verus! {

pub const FNV_BASIS: u64 = 0xcbf29ce484222325;

/// Takes one value into the hash.
pub open spec fn mix(hash: u64, value: u64) -> u64 {
    (hash ^ value).wrapping_mul(0x100000001b3u64)
}

/// Takes the bytes into the hash, one after another.
pub open spec fn absorb(hash: u64, bytes: Seq<u8>) -> u64
    decreases bytes.len(),
{
    if bytes.len() == 0 {
        hash
    } else {
        mix(absorb(hash, bytes.drop_last()), bytes.last() as u64)
    }
}

pub fn absorb_bytes(hash: u64, bytes: &[u8]) -> (r: u64)
    ensures
        r == absorb(hash, bytes@),
{
    let mut h: u64 = hash;
    let mut i: usize = 0;
    assert(bytes@.take(0) =~= Seq::<u8>::empty());
    while i < bytes.len()
        invariant
            i <= bytes.len(),
            h == absorb(hash, bytes@.take(i as int)),
        decreases bytes.len() - i,
    {
        h = (h ^ (bytes[i] as u64)).wrapping_mul(0x100000001b3u64);
        i = i + 1;
        assert(bytes@.take(i as int).drop_last() =~= bytes@.take(i - 1));
    }
    assert(bytes@.take(i as int) =~= bytes@);
    h
}

/// Takes a field and its end mark into the hash.
pub open spec fn absorb_field(hash: u64, field: Text) -> u64 {
    mix(absorb(hash, encode_utf8(field)), 0xff)
}

pub fn absorb_text(hash: u64, field: &str) -> (r: u64)
    ensures
        r == absorb_field(hash, field@),
{
    let h: u64 = absorb_bytes(hash, field.as_bytes());
    (h ^ 0xffu64).wrapping_mul(0x100000001b3u64)
}

/// The digest of serialized configuration.
pub fn manifest_fingerprint(bytes: &[u8]) -> (r: String)
    ensures
        r@ == hex(absorb(FNV_BASIS, bytes@) as nat, 16),
{
    hex_of(absorb_bytes(FNV_BASIS, bytes), 16)
}

/// A file of a directory: its path below it, and its content.
#[derive(Debug)]
pub struct FileContent {
    pub name: String,
    pub bytes: Vec<u8>,
}

/// Takes the first `n` files into the hash: the name and the content of each, with their end
/// marks.
pub open spec fn absorb_files(files: Seq<FileContent>, n: int) -> u64
    decreases n,
{
    if n <= 0 {
        FNV_BASIS
    } else {
        mix(
            absorb(
                absorb_field(absorb_files(files, n - 1), files[n - 1].name@),
                files[n - 1].bytes@,
            ),
            0xff,
        )
    }
}

/// The digest of a directory, whose files come in the order of their names.
pub fn directory_digest(files: &Vec<FileContent>) -> (r: String)
    ensures
        r@ == hex(absorb_files(files@, files@.len() as int) as nat, 16),
{
    let mut hash: u64 = FNV_BASIS;
    let mut i: usize = 0;
    while i < files.len()
        invariant
            i <= files@.len(),
            hash == absorb_files(files@, i as int),
        decreases files@.len() - i,
    {
        let named: u64 = absorb_text(hash, files[i].name.as_str());
        let filled: u64 = absorb_bytes(named, files[i].bytes.as_slice());
        hash = (filled ^ 0xffu64).wrapping_mul(0x100000001b3u64);
        i = i + 1;
    }
    hex_of(hash, 16)
}

} // verus!
