//! A read-optimized, on-disk storage format for boolean feature flags.
//!
//! The library covers the storage file formats themselves (package table,
//! flag table, flag value list, flag info list), their construction and
//! decoding, the query layer that reads them back, and the storage record
//! manifest that binds a container to its three storage files.

use vstd::prelude::*;
use vstd::string::StringExecFns;

pub mod aflags;
pub mod bytes;
pub mod flag_info;
pub mod flag_map;
pub mod flag_value;
pub mod flags;
pub mod hashing;
pub mod listing;
pub mod package_map;
pub mod package_table;
pub mod storage_record;

verus! {

/// Highest storage file format version this library reads and the version
/// it writes. Version 1 files lack the per-node fingerprint field.
pub const FILE_VERSION: u32 = 2;

/// Tag discriminating the four kinds of storage files.
#[derive(Clone, Copy, Debug, PartialEq, Eq, Structural)]
pub enum StorageFileType {
    PackageMap,
    FlagMap,
    FlagVal,
    FlagInfo,
}

impl StorageFileType {
    /// The on-disk code of this file type.
    pub open spec fn spec_code(self) -> u8 {
        match self {
            StorageFileType::PackageMap => 0,
            StorageFileType::FlagMap => 1,
            StorageFileType::FlagVal => 2,
            StorageFileType::FlagInfo => 3,
        }
    }

    /// Returns the on-disk code of this file type.
    pub fn code(&self) -> (r: u8)
        ensures
            r == self.spec_code(),
    {
        match self {
            StorageFileType::PackageMap => 0,
            StorageFileType::FlagMap => 1,
            StorageFileType::FlagVal => 2,
            StorageFileType::FlagInfo => 3,
        }
    }
}

/// Errors returned by the storage file codecs and the query layer.
///
/// Decode-time errors are always returned, never panics: the input buffer
/// may come from an untrusted or corrupted mapped file.
#[derive(Clone, Debug, PartialEq, Eq)]
pub enum AconfigStorageError {
    /// A read ran past the end of the buffer or the bytes were malformed.
    BytesParseFail,
    /// The file's version exceeds `FILE_VERSION`; carries the file's version.
    HigherStorageFileVersion(u32),
    /// A computed read position lies beyond the end of the file.
    InvalidStorageFileOffset,
    /// More entries than the largest supported bucket count allows.
    UnsupportedTableSize,
    /// Build-time only: a flag has no assigned offset and is not covered by
    /// the read-only/disabled exemption; carries the flag's name.
    MissingFlagOffset(String),
    /// Build-time only: a flag was handed to the id assignment of a package
    /// it does not belong to.
    FlagNotInPackage,
    /// Build-time only: a package holds more flags than ids exist.
    TooManyFlags,
}

/// The character `0` through `9` standing for one decimal digit.
pub open spec fn spec_digit_char(d: nat) -> char {
    if d == 0 {
        '0'
    } else if d == 1 {
        '1'
    } else if d == 2 {
        '2'
    } else if d == 3 {
        '3'
    } else if d == 4 {
        '4'
    } else if d == 5 {
        '5'
    } else if d == 6 {
        '6'
    } else if d == 7 {
        '7'
    } else if d == 8 {
        '8'
    } else {
        '9'
    }
}

/// The decimal rendering of `n`, most significant digit first.
pub open spec fn spec_decimal(n: nat) -> Seq<char>
    decreases n,
{
    if n < 10 {
        seq![spec_digit_char(n)]
    } else {
        spec_decimal(n / 10) + seq![spec_digit_char(n % 10)]
    }
}

fn digit_str(d: u32) -> (r: &'static str)
    requires
        d < 10,
    ensures
        r@ == seq![spec_digit_char(d as nat)],
{
    proof {
        reveal_strlit("0");
        reveal_strlit("1");
        reveal_strlit("2");
        reveal_strlit("3");
        reveal_strlit("4");
        reveal_strlit("5");
        reveal_strlit("6");
        reveal_strlit("7");
        reveal_strlit("8");
        reveal_strlit("9");
    }
    let r = match d {
        0 => "0",
        1 => "1",
        2 => "2",
        3 => "3",
        4 => "4",
        5 => "5",
        6 => "6",
        7 => "7",
        8 => "8",
        _ => "9",
    };
    proof {
        assert(r@ =~= seq![spec_digit_char(d as nat)]);
    }
    r
}

/// Renders `v` in decimal.
pub fn u32_to_string(v: u32) -> (r: String)
    ensures
        r@ == spec_decimal(v as nat),
{
    if v < 10 {
        return digit_str(v).to_owned();
    }
    let mut acc = String::new();
    let mut x: u32 = v;
    while x > 0
        invariant
            x > 0 ==> spec_decimal(v as nat) =~= spec_decimal(x as nat) + acc@,
            x == 0 ==> spec_decimal(v as nat) =~= acc@,
        decreases x,
    {
        let d: u32 = x % 10;
        let ds = digit_str(d);
        let rest = acc;
        acc = ds.to_owned().concat(rest.as_str());
        proof {
            if x >= 10 {
                assert(spec_decimal(x as nat) =~= spec_decimal((x / 10) as nat) + seq![
                    spec_digit_char((x % 10) as nat),
                ]);
                assert(spec_decimal(v as nat) =~= spec_decimal((x / 10) as nat) + acc@);
            } else {
                assert(spec_decimal(x as nat) =~= seq![spec_digit_char(x as nat)]);
                assert(spec_decimal(v as nat) =~= acc@);
            }
        }
        x = x / 10;
    }
    acc
}

impl AconfigStorageError {
    /// The text that this error renders to, mirroring a derived debug layout
    /// of the variant name around its message.
    pub open spec fn spec_debug_str(self) -> Seq<char> {
        match self {
            AconfigStorageError::BytesParseFail => "BytesParseFail(Failed to parse bytes.)"@,
            AconfigStorageError::HigherStorageFileVersion(v) => {
                "HigherStorageFileVersion(Cannot read storage file with a higher version of "@
                    + spec_decimal(v as nat) + " with lib version "@ + spec_decimal(
                    FILE_VERSION as nat,
                ) + ")"@
            },
            AconfigStorageError::InvalidStorageFileOffset => {
                "InvalidStorageFileOffset(Flag value offset goes beyond the end of the file.)"@
            },
            AconfigStorageError::UnsupportedTableSize => {
                "UnsupportedTableSize(Number of items in a hash table exceeds limit.)"@
            },
            AconfigStorageError::MissingFlagOffset(name) => {
                "MissingFlagOffset(missing flag id for "@ + name@ + ")"@
            },
            AconfigStorageError::FlagNotInPackage => {
                "FlagNotInPackage(encountered a flag not in current package)"@
            },
            AconfigStorageError::TooManyFlags => {
                "TooManyFlags(the number of flags in a package exceeds the largest flag id)"@
            },
        }
    }

    /// Renders this error the way the debug form of the variant would print,
    /// with the full message inside the parentheses.
    pub fn debug_str(&self) -> (r: String)
        ensures
            r@ == self.spec_debug_str(),
    {
        match self {
            AconfigStorageError::BytesParseFail => {
                "BytesParseFail(Failed to parse bytes.)".to_owned()
            },
            AconfigStorageError::HigherStorageFileVersion(v) => {
                let r =
                    "HigherStorageFileVersion(Cannot read storage file with a higher version of ".to_owned().concat(
                    u32_to_string(*v).as_str(),
                ).concat(" with lib version ").concat(
                    u32_to_string(FILE_VERSION).as_str(),
                ).concat(")");
                proof {
                    assert(r@ =~= self.spec_debug_str());
                }
                r
            },
            AconfigStorageError::InvalidStorageFileOffset => {
                "InvalidStorageFileOffset(Flag value offset goes beyond the end of the file.)".to_owned()
            },
            AconfigStorageError::UnsupportedTableSize => {
                "UnsupportedTableSize(Number of items in a hash table exceeds limit.)".to_owned()
            },
            AconfigStorageError::MissingFlagOffset(name) => {
                let r = "MissingFlagOffset(missing flag id for ".to_owned().concat(
                    name.as_str(),
                ).concat(")");
                proof {
                    assert(r@ =~= self.spec_debug_str());
                }
                r
            },
            AconfigStorageError::FlagNotInPackage => {
                "FlagNotInPackage(encountered a flag not in current package)".to_owned()
            },
            AconfigStorageError::TooManyFlags => {
                "TooManyFlags(the number of flags in a package exceeds the largest flag id)".to_owned()
            },
        }
    }
}

/// Compares two strings by their characters.
pub fn str_eq(a: &str, b: &str) -> (r: bool)
    ensures
        r == (a@ == b@),
{
    let ab = a.as_bytes();
    let bb = b.as_bytes();
    proof {
        vstd::utf8::encode_utf8_decode_utf8(a@);
        vstd::utf8::encode_utf8_decode_utf8(b@);
    }
    if ab.len() != bb.len() {
        return false;
    }
    let n = ab.len();
    let mut i: usize = 0;
    while i < n
        invariant
            i <= n,
            n == ab@.len(),
            ab@.len() == bb@.len(),
            ab@ == vstd::utf8::encode_utf8(a@),
            bb@ == vstd::utf8::encode_utf8(b@),
            forall|j: int| 0 <= j < i ==> ab@[j] == bb@[j],
        decreases n - i,
    {
        if *vstd::slice::slice_index_get(ab, i) != *vstd::slice::slice_index_get(bb, i) {
            proof {
                vstd::utf8::encode_utf8_decode_utf8(a@);
                vstd::utf8::encode_utf8_decode_utf8(b@);
            }
            return false;
        }
        i = i + 1;
    }
    proof {
        assert(ab@ =~= bb@);
        vstd::utf8::encode_utf8_decode_utf8(a@);
        vstd::utf8::encode_utf8_decode_utf8(b@);
    }
    true
}

/// Whether the flag storage files are the only source of flag values.
/// This build of the library always reads the new storage.
pub fn enable_only_new_storage() -> (r: bool)
    ensures
        r == true,
{
    true
}

} // verus!
