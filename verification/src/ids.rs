//! Deterministic node identifiers.
//!
//! A node's identifier is derived from its full path — the parent's
//! identifier, the hierarchy level and the node's name — by a 64-bit FNV-1a
//! hash, so that re-populating a directory assigns an unchanged child the
//! same identifier it had before, independent of insertion order or of the
//! position of the name in the remote listing.

use vstd::prelude::*;

verus! {

use crate::inode::KubeFSLevel;
use vstd::string::StrSliceExecFns;
use vstd::string::StringSliceAdditionalSpecFns;

/// FNV-1a 64-bit offset basis.
pub const FNV_OFFSET: u64 = 0xcbf29ce484222325;

/// FNV-1a 64-bit prime.
pub const FNV_PRIME: u64 = 0x100000001b3;

/// One FNV-1a round: fold a byte into the running hash.
pub open spec fn fnv64_step(h: u64, b: u8) -> u64 {
    vstd::wrapping::u64_specs::wrapping_mul(h ^ (b as u64), FNV_PRIME)
}

/// FNV-1a hash of a byte sequence.
pub open spec fn fnv64(s: Seq<u8>) -> u64
    decreases s.len(),
{
    if s.len() == 0 {
        FNV_OFFSET
    } else {
        fnv64_step(fnv64(s.drop_last()), s.last())
    }
}

/// Tag byte distinguishing the hierarchy level in the hashed path.
pub open spec fn level_tag(level: KubeFSLevel) -> u8 {
    match level {
        KubeFSLevel::Root => 0,
        KubeFSLevel::Namespace => 1,
        KubeFSLevel::Object => 2,
        KubeFSLevel::File => 3,
    }
}

/// Little-endian bytes of a 64-bit identifier.
pub open spec fn u64_le_bytes(x: u64) -> Seq<u8> {
    seq![
        (x % 256) as u8,
        ((x / 0x100) % 256) as u8,
        ((x / 0x10000) % 256) as u8,
        ((x / 0x1000000) % 256) as u8,
        ((x / 0x100000000) % 256) as u8,
        ((x / 0x10000000000) % 256) as u8,
        ((x / 0x1000000000000) % 256) as u8,
        ((x / 0x100000000000000) % 256) as u8,
    ]
}

/// The byte string that identifies a node's full path: level tag, parent
/// identifier, then the UTF-8 encoding of the name.
pub open spec fn path_bytes(parent: u64, level: KubeFSLevel, name: Seq<char>) -> Seq<u8> {
    seq![level_tag(level)] + u64_le_bytes(parent) + vstd::utf8::encode_utf8(name)
}

/// The identifier of the child of `parent` at `level` named `name`.
pub open spec fn spec_path_ino(parent: u64, level: KubeFSLevel, name: Seq<char>) -> u64 {
    fnv64(path_bytes(parent, level, name))
}

fn exec_level_tag(level: KubeFSLevel) -> (r: u8)
    ensures
        r == level_tag(level),
{
    match level {
        KubeFSLevel::Root => 0,
        KubeFSLevel::Namespace => 1,
        KubeFSLevel::Object => 2,
        KubeFSLevel::File => 3,
    }
}

fn fnv64_bytes(bytes: &Vec<u8>) -> (r: u64)
    ensures
        r == fnv64(bytes@),
{
    let mut h: u64 = FNV_OFFSET;
    let mut i: usize = 0;
    while i < bytes.len()
        invariant
            0 <= i <= bytes@.len(),
            h == fnv64(bytes@.take(i as int)),
        decreases bytes@.len() - i,
    {
        proof {
            assert(bytes@.take(i + 1).drop_last() =~= bytes@.take(i as int));
            assert(bytes@.take(i + 1).last() == bytes@[i as int]);
        }
        h = (h ^ (bytes[i] as u64)).wrapping_mul(FNV_PRIME);
        i = i + 1;
    }
    proof {
        assert(bytes@.take(bytes@.len() as int) =~= bytes@);
    }
    h
}

/// Compute the identifier of the child of `parent` at `level` named `name`,
/// as a deterministic hash of the full path.
pub fn path_ino(parent: u64, level: KubeFSLevel, name: &str) -> (r: u64)
    ensures
        r == spec_path_ino(parent, level, name@),
{
    let mut buf: Vec<u8> = Vec::new();
    buf.push(exec_level_tag(level));
    buf.push((parent % 256) as u8);
    buf.push(((parent / 0x100) % 256) as u8);
    buf.push(((parent / 0x10000) % 256) as u8);
    buf.push(((parent / 0x1000000) % 256) as u8);
    buf.push(((parent / 0x100000000) % 256) as u8);
    buf.push(((parent / 0x10000000000) % 256) as u8);
    buf.push(((parent / 0x1000000000000) % 256) as u8);
    buf.push(((parent / 0x100000000000000) % 256) as u8);
    proof {
        assert(buf@ =~= seq![level_tag(level)] + u64_le_bytes(parent));
    }
    let name_bytes = name.as_bytes_vec();
    let mut j: usize = 0;
    while j < name_bytes.len()
        invariant
            0 <= j <= name_bytes@.len(),
            name_bytes@ == name.spec_bytes(),
            buf@ == seq![level_tag(level)] + u64_le_bytes(parent) + name_bytes@.take(j as int),
        decreases name_bytes@.len() - j,
    {
        buf.push(name_bytes[j]);
        proof {
            assert(name_bytes@.take(j + 1) =~= name_bytes@.take(j as int).push(name_bytes@[j as int]));
        }
        j = j + 1;
    }
    proof {
        assert(name_bytes@.take(name_bytes@.len() as int) =~= name_bytes@);
        assert(buf@ =~= path_bytes(parent, level, name@));
    }
    fnv64_bytes(&buf)
}

} // verus!
