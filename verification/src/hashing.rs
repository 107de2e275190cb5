//! Deterministic string hashing for bucket placement, and the policy
//! that picks a bucket count for a table.
//!
//! The hash must be stable across builds: a fingerprint computed once
//! must stay valid for the lifetime of a format version. Likewise the
//! candidate bucket counts are a fixed, versioned sequence; changing
//! either is a breaking format revision.

use vstd::prelude::*;
use vstd::std_specs::hash::DefaultHasherAdditionalSpecFns;
use vstd::utf8::encode_utf8;
use std::collections::hash_map::DefaultHasher;
use std::hash::Hasher;
use crate::AconfigStorageError;

verus! {

/// The hash of a key: the key's UTF-8 bytes fed to the default hasher,
/// followed by a single 0xff terminator byte.
pub open spec fn spec_key_hash(key: Seq<char>) -> u64 {
    DefaultHasher::spec_finish(seq![encode_utf8(key), seq![0xffu8]])
}

/// The bucket a key falls into among `num_buckets` buckets.
pub open spec fn spec_bucket_index(key: Seq<char>, num_buckets: u32) -> u32
    recommends
        num_buckets > 0,
{
    (spec_key_hash(key) % (num_buckets as u64)) as u32
}

/// Computes the bucket index of `key` among `num_buckets` buckets.
pub fn get_bucket_index(key: &str, num_buckets: u32) -> (r: u32)
    requires
        num_buckets > 0,
    ensures
        r == spec_bucket_index(key@, num_buckets),
        r < num_buckets,
{
    let mut hasher = DefaultHasher::new();
    hasher.write(key.as_bytes());
    let mut terminator: Vec<u8> = Vec::new();
    terminator.push(0xff);
    proof {
        assert(terminator@ =~= seq![0xffu8]);
    }
    hasher.write(terminator.as_slice());
    let h = hasher.finish();
    proof {
        assert(hasher@ =~= seq![encode_utf8(key@), seq![0xffu8]]);
    }
    (h % (num_buckets as u64)) as u32
}

/// The bucket count chosen for `entries` entries: the smallest of the
/// fixed candidate counts that exceeds the entry count, or none when the
/// table is too large for every candidate.
pub open spec fn spec_table_size(entries: u32) -> Option<u32> {
    if entries < 7 {
        Some(7u32)
    } else if entries < 13 {
        Some(13u32)
    } else if entries < 29 {
        Some(29u32)
    } else if entries < 53 {
        Some(53u32)
    } else if entries < 97 {
        Some(97u32)
    } else if entries < 193 {
        Some(193u32)
    } else if entries < 389 {
        Some(389u32)
    } else if entries < 769 {
        Some(769u32)
    } else if entries < 1543 {
        Some(1543u32)
    } else if entries < 3079 {
        Some(3079u32)
    } else if entries < 6151 {
        Some(6151u32)
    } else if entries < 12289 {
        Some(12289u32)
    } else if entries < 24593 {
        Some(24593u32)
    } else if entries < 49157 {
        Some(49157u32)
    } else if entries < 98317 {
        Some(98317u32)
    } else {
        None
    }
}

/// Picks the bucket count for a table with `entries` entries, failing
/// when the count exceeds the largest supported size.
pub fn get_table_size(entries: u32) -> (r: Result<u32, AconfigStorageError>)
    ensures
        match spec_table_size(entries) {
            Some(n) => r == Ok::<u32, AconfigStorageError>(n),
            None => r == Err::<u32, AconfigStorageError>(AconfigStorageError::UnsupportedTableSize),
        },
        r matches Ok(n) ==> n > entries && n > 0,
{
    if entries < 7 {
        Ok(7)
    } else if entries < 13 {
        Ok(13)
    } else if entries < 29 {
        Ok(29)
    } else if entries < 53 {
        Ok(53)
    } else if entries < 97 {
        Ok(97)
    } else if entries < 193 {
        Ok(193)
    } else if entries < 389 {
        Ok(389)
    } else if entries < 769 {
        Ok(769)
    } else if entries < 1543 {
        Ok(1543)
    } else if entries < 3079 {
        Ok(3079)
    } else if entries < 6151 {
        Ok(6151)
    } else if entries < 12289 {
        Ok(12289)
    } else if entries < 24593 {
        Ok(24593)
    } else if entries < 49157 {
        Ok(49157)
    } else if entries < 98317 {
        Ok(98317)
    } else {
        Err(AconfigStorageError::UnsupportedTableSize)
    }
}

} // verus!
