//! The flag value list: a header followed by one byte per boolean flag,
//! addressed by absolute offset, and the query that reads one value back.

use vstd::prelude::*;
use vstd::bytes::spec_u32_to_le_bytes;
use crate::bytes::{
    spec_read_u8, spec_read_u32, spec_read_str, spec_str_bytes, str_bytes_wf, read_u8_from_bytes,
    read_u32_from_bytes, read_str_from_bytes, push_u8, push_u32_le, push_str_bytes,
    lemma_subrange_of_matching, lemma_read_u8_of_encoding, lemma_read_u32_of_encoding,
    lemma_read_str_of_encoding, lemma_u32_le_len, lemma_str_bytes_len,
};
use crate::{AconfigStorageError, FILE_VERSION};

verus! {

/// Mathematical model of a flag value list header.
pub ghost struct FlagValueHeaderSpec {
    pub version: u32,
    pub container: Seq<char>,
    pub file_type: u8,
    pub file_size: u32,
    pub num_flags: u32,
    pub boolean_value_offset: u32,
}

/// Header of a flag value list file.
#[derive(Debug, PartialEq, Eq)]
pub struct FlagValueHeader {
    pub version: u32,
    pub container: String,
    pub file_type: u8,
    pub file_size: u32,
    pub num_flags: u32,
    pub boolean_value_offset: u32,
}

impl View for FlagValueHeader {
    type V = FlagValueHeaderSpec;

    open spec fn view(&self) -> FlagValueHeaderSpec {
        FlagValueHeaderSpec {
            version: self.version,
            container: self.container@,
            file_type: self.file_type,
            file_size: self.file_size,
            num_flags: self.num_flags,
            boolean_value_offset: self.boolean_value_offset,
        }
    }
}

impl FlagValueHeaderSpec {
    pub open spec fn wf(self) -> bool {
        str_bytes_wf(self.container)
    }

    /// The serialized header: all integers little-endian, the container
    /// length-prefixed, no padding.
    pub open spec fn spec_bytes(self) -> Seq<u8> {
        spec_u32_to_le_bytes(self.version) + spec_str_bytes(self.container) + seq![self.file_type]
            + spec_u32_to_le_bytes(self.file_size) + spec_u32_to_le_bytes(self.num_flags)
            + spec_u32_to_le_bytes(self.boolean_value_offset)
    }

    /// Reads a header at `pos`, returning it and the position after it.
    pub open spec fn spec_read(buf: Seq<u8>, pos: int) -> Option<(FlagValueHeaderSpec, int)> {
        match spec_read_u32(buf, pos) {
            None => None,
            Some((version, p1)) => match spec_read_str(buf, p1) {
                None => None,
                Some((container, p2)) => match spec_read_u8(buf, p2) {
                    None => None,
                    Some((file_type, p3)) => match spec_read_u32(buf, p3) {
                        None => None,
                        Some((file_size, p4)) => match spec_read_u32(buf, p4) {
                            None => None,
                            Some((num_flags, p5)) => match spec_read_u32(buf, p5) {
                                None => None,
                                Some((boolean_value_offset, p6)) => Some(
                                    (
                                        FlagValueHeaderSpec {
                                            version,
                                            container,
                                            file_type,
                                            file_size,
                                            num_flags,
                                            boolean_value_offset,
                                        },
                                        p6,
                                    ),
                                ),
                            },
                        },
                    },
                },
            },
        }
    }
}

/// Reading a serialized header back recovers it field for field.
pub proof fn lemma_flag_value_header_read_of_encoding(
    buf: Seq<u8>,
    pos: int,
    h: FlagValueHeaderSpec,
)
    requires
        0 <= pos,
        h.wf(),
        pos + h.spec_bytes().len() <= buf.len(),
        buf.subrange(pos, pos + h.spec_bytes().len()) == h.spec_bytes(),
    ensures
        FlagValueHeaderSpec::spec_read(buf, pos) == Some((h, pos + h.spec_bytes().len())),
{
    let full = h.spec_bytes();
    let sb = spec_str_bytes(h.container);
    lemma_u32_le_len(h.version);
    lemma_u32_le_len(h.file_size);
    lemma_u32_le_len(h.num_flags);
    lemma_u32_le_len(h.boolean_value_offset);
    lemma_str_bytes_len(h.container);
    let o1: int = 4;
    let o2: int = o1 + sb.len();
    let o3: int = o2 + 1;
    let o4: int = o3 + 4;
    let o5: int = o4 + 4;
    let o6: int = o5 + 4;
    assert(full.len() == o6);
    lemma_subrange_of_matching(buf, pos, full, 0, o1);
    assert(full.subrange(0, o1) =~= spec_u32_to_le_bytes(h.version));
    lemma_read_u32_of_encoding(buf, pos, h.version);
    lemma_subrange_of_matching(buf, pos, full, o1, o2);
    assert(full.subrange(o1, o2) =~= sb);
    lemma_read_str_of_encoding(buf, pos + o1, h.container);
    lemma_subrange_of_matching(buf, pos, full, o2, o3);
    assert(full.subrange(o2, o3) =~= seq![h.file_type]);
    lemma_read_u8_of_encoding(buf, pos + o2, h.file_type);
    lemma_subrange_of_matching(buf, pos, full, o3, o4);
    assert(full.subrange(o3, o4) =~= spec_u32_to_le_bytes(h.file_size));
    lemma_read_u32_of_encoding(buf, pos + o3, h.file_size);
    lemma_subrange_of_matching(buf, pos, full, o4, o5);
    assert(full.subrange(o4, o5) =~= spec_u32_to_le_bytes(h.num_flags));
    lemma_read_u32_of_encoding(buf, pos + o4, h.num_flags);
    lemma_subrange_of_matching(buf, pos, full, o5, o6);
    assert(full.subrange(o5, o6) =~= spec_u32_to_le_bytes(h.boolean_value_offset));
    lemma_read_u32_of_encoding(buf, pos + o5, h.boolean_value_offset);
}

impl FlagValueHeader {
    /// Serializes the header.
    pub fn into_bytes(&self) -> (r: Vec<u8>)
        requires
            self@.wf(),
        ensures
            r@ == self@.spec_bytes(),
    {
        let mut result: Vec<u8> = Vec::new();
        push_u32_le(&mut result, self.version);
        push_str_bytes(&mut result, self.container.as_str());
        push_u8(&mut result, self.file_type);
        push_u32_le(&mut result, self.file_size);
        push_u32_le(&mut result, self.num_flags);
        push_u32_le(&mut result, self.boolean_value_offset);
        proof {
            assert(result@ =~= self@.spec_bytes());
        }
        result
    }

    /// Decodes a header from the start of `bytes`; trailing bytes are
    /// ignored. Succeeds exactly when the spec-level reader does, and
    /// then returns exactly the header it reads.
    pub fn from_bytes(bytes: &[u8]) -> (r: Result<FlagValueHeader, AconfigStorageError>)
        ensures
            match FlagValueHeaderSpec::spec_read(bytes@, 0) {
                Some(hp) => r matches Ok(h) && h@ == hp.0,
                None => r == Err::<FlagValueHeader, AconfigStorageError>(
                    AconfigStorageError::BytesParseFail,
                ),
            },
    {
        let mut head: usize = 0;
        let version = match read_u32_from_bytes(bytes, &mut head) {
            Ok(v) => v,
            Err(e) => {
                return Err(e);
            },
        };
        let container = match read_str_from_bytes(bytes, &mut head) {
            Ok(v) => v,
            Err(e) => {
                return Err(e);
            },
        };
        let file_type = match read_u8_from_bytes(bytes, &mut head) {
            Ok(v) => v,
            Err(e) => {
                return Err(e);
            },
        };
        let file_size = match read_u32_from_bytes(bytes, &mut head) {
            Ok(v) => v,
            Err(e) => {
                return Err(e);
            },
        };
        let num_flags = match read_u32_from_bytes(bytes, &mut head) {
            Ok(v) => v,
            Err(e) => {
                return Err(e);
            },
        };
        let boolean_value_offset = match read_u32_from_bytes(bytes, &mut head) {
            Ok(v) => v,
            Err(e) => {
                return Err(e);
            },
        };
        Ok(
            FlagValueHeader {
                version,
                container,
                file_type,
                file_size,
                num_flags,
                boolean_value_offset,
            },
        )
    }
}

/// Mathematical model of a flag value list.
pub ghost struct FlagValueListSpec {
    pub header: FlagValueHeaderSpec,
    pub booleans: Seq<bool>,
}

/// A flag value list file: header plus one boolean per flag.
#[derive(Debug, PartialEq, Eq)]
pub struct FlagValueList {
    pub header: FlagValueHeader,
    pub booleans: Vec<bool>,
}

impl View for FlagValueList {
    type V = FlagValueListSpec;

    open spec fn view(&self) -> FlagValueListSpec {
        FlagValueListSpec { header: self.header@, booleans: self.booleans@ }
    }
}

/// One byte per boolean: 1 for true, 0 for false.
pub open spec fn spec_bool_bytes(bools: Seq<bool>) -> Seq<u8> {
    bools.map_values(|b: bool| if b { 1u8 } else { 0u8 })
}

/// Reads `count` boolean bytes.
pub open spec fn spec_read_bools(buf: Seq<u8>, pos: int, count: nat) -> Option<(Seq<bool>, int)>
    decreases count,
{
    if count == 0 {
        Some((Seq::empty(), pos))
    } else {
        match spec_read_bools(buf, pos, (count - 1) as nat) {
            None => None,
            Some((s, p)) => match spec_read_u8(buf, p) {
                None => None,
                Some((v, q)) => Some((s.push(v == 1), q)),
            },
        }
    }
}

/// Once a prefix of the boolean reads fails, reading any longer count
/// fails as well.
pub proof fn lemma_read_bools_fail(buf: Seq<u8>, pos: int, i: nat, count: nat)
    requires
        i < count,
        spec_read_bools(buf, pos, i) matches Some(sp) && spec_read_u8(buf, sp.1) is None,
    ensures
        spec_read_bools(buf, pos, count) is None,
    decreases count,
{
    if count - 1 > i {
        lemma_read_bools_fail(buf, pos, i, (count - 1) as nat);
    }
}

/// Reading back an encoded run of booleans recovers it.
pub proof fn lemma_read_bools_of_encoding(buf: Seq<u8>, pos: int, bools: Seq<bool>)
    requires
        0 <= pos,
        pos + bools.len() <= buf.len(),
        buf.subrange(pos, pos + bools.len()) == spec_bool_bytes(bools),
    ensures
        spec_read_bools(buf, pos, bools.len()) == Some((bools, pos + bools.len())),
    decreases bools.len(),
{
    if bools.len() > 0 {
        let pre = bools.drop_last();
        assert(buf.subrange(pos, pos + pre.len()) =~= spec_bool_bytes(pre)) by {
            assert forall|i: int| 0 <= i < pre.len() implies buf.subrange(pos, pos + pre.len())[i]
                == spec_bool_bytes(pre)[i] by {
                assert(buf.subrange(pos, pos + bools.len())[i] == spec_bool_bytes(bools)[i]);
            }
        }
        lemma_read_bools_of_encoding(buf, pos, pre);
        let p = pos + pre.len();
        assert(buf[p] == buf.subrange(pos, pos + bools.len())[pre.len() as int]);
        assert(buf[p] == (if bools.last() { 1u8 } else { 0u8 }));
        assert(spec_read_u8(buf, p) == Some((buf[p], p + 1)));
        assert(pre.push((buf[p] == 1)) =~= bools);
    }
}

impl FlagValueListSpec {
    pub open spec fn wf(self) -> bool {
        &&& self.header.wf()
        &&& self.header.num_flags == self.booleans.len()
    }

    pub open spec fn spec_bytes(self) -> Seq<u8> {
        self.header.spec_bytes() + spec_bool_bytes(self.booleans)
    }

    /// Reads a whole flag value list from the start of the buffer.
    pub open spec fn spec_from_bytes(buf: Seq<u8>) -> Option<FlagValueListSpec> {
        match FlagValueHeaderSpec::spec_read(buf, 0) {
            None => None,
            Some((h, p)) => match spec_read_bools(buf, p, h.num_flags as nat) {
                None => None,
                Some((bools, _)) => Some(FlagValueListSpec { header: h, booleans: bools }),
            },
        }
    }
}

/// Round trip: decoding a serialized flag value list recovers it field
/// for field.
pub proof fn lemma_flag_value_list_round_trip(l: FlagValueListSpec)
    requires
        l.wf(),
    ensures
        FlagValueListSpec::spec_from_bytes(l.spec_bytes()) == Some(l),
{
    let buf = l.spec_bytes();
    let hb = l.header.spec_bytes();
    assert(buf.subrange(0, hb.len() as int) =~= hb);
    lemma_flag_value_header_read_of_encoding(buf, 0, l.header);
    assert(buf.subrange(hb.len() as int, buf.len() as int) =~= spec_bool_bytes(l.booleans));
    lemma_read_bools_of_encoding(buf, hb.len() as int, l.booleans);
}

impl FlagValueList {
    /// Serializes the list: header bytes then one byte per boolean.
    pub fn into_bytes(&self) -> (r: Vec<u8>)
        requires
            self@.wf(),
        ensures
            r@ == self@.spec_bytes(),
    {
        let mut result = self.header.into_bytes();
        let n = self.booleans.len();
        let mut i: usize = 0;
        while i < n
            invariant
                i <= n,
                n == self.booleans.len(),
                result@ == self@.header.spec_bytes() + spec_bool_bytes(
                    self.booleans@.subrange(0, i as int),
                ),
            decreases n - i,
        {
            let b: bool = self.booleans[i];
            push_u8(&mut result, if b {
                1
            } else {
                0
            });
            i = i + 1;
            proof {
                assert(result@ =~= self@.header.spec_bytes() + spec_bool_bytes(
                    self.booleans@.subrange(0, i as int),
                ));
            }
        }
        proof {
            assert(self.booleans@.subrange(0, n as int) =~= self.booleans@);
            assert(result@ =~= self@.spec_bytes());
        }
        result
    }

    /// Decodes a whole flag value list. Succeeds exactly when the
    /// spec-level reader does, and then returns exactly what it reads.
    pub fn from_bytes(bytes: &[u8]) -> (r: Result<FlagValueList, AconfigStorageError>)
        ensures
            match FlagValueListSpec::spec_from_bytes(bytes@) {
                Some(l) => r matches Ok(v) && v@ == l,
                None => r == Err::<FlagValueList, AconfigStorageError>(
                    AconfigStorageError::BytesParseFail,
                ),
            },
    {
        let mut head: usize = 0;
        let version = match read_u32_from_bytes(bytes, &mut head) {
            Ok(v) => v,
            Err(e) => {
                return Err(e);
            },
        };
        let container = match read_str_from_bytes(bytes, &mut head) {
            Ok(v) => v,
            Err(e) => {
                return Err(e);
            },
        };
        let file_type = match read_u8_from_bytes(bytes, &mut head) {
            Ok(v) => v,
            Err(e) => {
                return Err(e);
            },
        };
        let file_size = match read_u32_from_bytes(bytes, &mut head) {
            Ok(v) => v,
            Err(e) => {
                return Err(e);
            },
        };
        let num_flags = match read_u32_from_bytes(bytes, &mut head) {
            Ok(v) => v,
            Err(e) => {
                return Err(e);
            },
        };
        let boolean_value_offset = match read_u32_from_bytes(bytes, &mut head) {
            Ok(v) => v,
            Err(e) => {
                return Err(e);
            },
        };
        let header = FlagValueHeader {
            version,
            container,
            file_type,
            file_size,
            num_flags,
            boolean_value_offset,
        };
        let ghost header_end: int = head as int;
        proof {
            assert(FlagValueHeaderSpec::spec_read(bytes@, 0) == Some((header@, header_end)));
        }
        let mut booleans: Vec<bool> = Vec::new();
        let mut i: u32 = 0;
        while i < num_flags
            invariant
                i <= num_flags,
                FlagValueHeaderSpec::spec_read(bytes@, 0) == Some((header@, header_end)),
                header@.num_flags == num_flags,
                spec_read_bools(bytes@, header_end, i as nat) == Some(
                    (booleans@, head as int),
                ),
            decreases num_flags - i,
        {
            let v = match read_u8_from_bytes(bytes, &mut head) {
                Ok(v) => v,
                Err(e) => {
                    proof {
                        lemma_read_bools_fail(bytes@, header_end, i as nat, num_flags as nat);
                    }
                    return Err(e);
                },
            };
            booleans.push(v == 1);
            i = i + 1;
        }
        Ok(FlagValueList { header, booleans })
    }
}

/// Queries the boolean at `flag_offset` in a flag value list file.
///
/// Fails with a higher-version error on any file whose version exceeds
/// `FILE_VERSION`, with an out-of-range error when the absolute position
/// would reach or pass `file_size`, and with a parse error on a buffer
/// whose header or value byte cannot be read.
pub fn find_boolean_flag_value(buf: &[u8], flag_offset: u32) -> (r: Result<
    bool,
    AconfigStorageError,
>)
    ensures
        match FlagValueHeaderSpec::spec_read(buf@, 0) {
            None => r == Err::<bool, AconfigStorageError>(AconfigStorageError::BytesParseFail),
            Some((h, _)) => {
                if h.version > FILE_VERSION {
                    r == Err::<bool, AconfigStorageError>(
                        AconfigStorageError::HigherStorageFileVersion(h.version),
                    )
                } else if h.boolean_value_offset + flag_offset >= h.file_size {
                    r == Err::<bool, AconfigStorageError>(
                        AconfigStorageError::InvalidStorageFileOffset,
                    )
                } else {
                    match spec_read_u8(buf@, h.boolean_value_offset + flag_offset) {
                        Some((v, _)) => r == Ok::<bool, AconfigStorageError>(v == 1),
                        None => r == Err::<bool, AconfigStorageError>(
                            AconfigStorageError::BytesParseFail,
                        ),
                    }
                }
            },
        },
{
    let interpreted_header = match FlagValueHeader::from_bytes(buf) {
        Ok(h) => h,
        Err(e) => {
            return Err(e);
        },
    };
    if interpreted_header.version > FILE_VERSION {
        return Err(AconfigStorageError::HigherStorageFileVersion(interpreted_header.version));
    }
    let pos: u64 = interpreted_header.boolean_value_offset as u64 + flag_offset as u64;
    if pos >= interpreted_header.file_size as u64 {
        return Err(AconfigStorageError::InvalidStorageFileOffset);
    }
    let mut head: usize = pos as usize;
    match read_u8_from_bytes(buf, &mut head) {
        Ok(v) => Ok(v == 1),
        Err(e) => Err(e),
    }
}

} // verus!
