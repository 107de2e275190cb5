//! The storage record registry: the manifest binding each container to
//! its three storage file paths, carried as a binary protocol-buffer
//! style record (varint scalars, length-delimited strings and entries).
//!
//! Every entry's three path fields are mandatory; validation fails
//! closed on the first missing one.

use vstd::prelude::*;
use vstd::utf8::{encode_utf8, decode_utf8, valid_utf8, encode_utf8_valid_utf8,
    encode_utf8_decode_utf8};
use vstd::slice::{slice_index_get, slice_subrange, slice_to_vec};
use crate::bytes::{spec_read_u8, lemma_subrange_of_matching, lemma_read_u8_of_encoding};

verus! {

/// Errors of manifest parsing and validation.
#[derive(Debug, PartialEq, Eq)]
pub enum StorageProtoError {
    /// An entry names no package map file; carries the entry's container.
    MissingPackageMap { container: String },
    /// An entry names no flag map file; carries the entry's container.
    MissingFlagMap { container: String },
    /// An entry names no flag value file; carries the entry's container.
    MissingFlagValue { container: String },
    /// The bytes are not a canonical serialized manifest.
    Proto,
}

/// Mathematical model of one manifest entry.
pub ghost struct StorageFileInfoSpec {
    pub version: u32,
    pub container: Seq<char>,
    pub package_map: Seq<char>,
    pub flag_map: Seq<char>,
    pub flag_val: Seq<char>,
    pub timestamp: u64,
}

/// One manifest entry: a container and its three storage file paths.
#[derive(Debug, PartialEq, Eq)]
pub struct StorageFileInfo {
    pub version: u32,
    pub container: String,
    pub package_map: String,
    pub flag_map: String,
    pub flag_val: String,
    pub timestamp: u64,
}

impl View for StorageFileInfo {
    type V = StorageFileInfoSpec;

    open spec fn view(&self) -> StorageFileInfoSpec {
        StorageFileInfoSpec {
            version: self.version,
            container: self.container@,
            package_map: self.package_map@,
            flag_map: self.flag_map@,
            flag_val: self.flag_val@,
            timestamp: self.timestamp,
        }
    }
}

/// The whole manifest: one entry per container.
#[derive(Debug, PartialEq, Eq)]
pub struct StorageFiles {
    pub files: Vec<StorageFileInfo>,
}

impl View for StorageFiles {
    type V = Seq<StorageFileInfoSpec>;

    open spec fn view(&self) -> Seq<StorageFileInfoSpec> {
        self.files@.map_values(|f: StorageFileInfo| f@)
    }
}

// ---------------------------------------------------------------------------
// Varints.
// ---------------------------------------------------------------------------

/// Base-128 varint encoding, least significant group first.
pub open spec fn spec_varint(v: u64) -> Seq<u8>
    decreases v,
{
    if v < 128 {
        seq![v as u8]
    } else {
        seq![(v % 128 + 128) as u8] + spec_varint(v / 128)
    }
}

pub open spec fn spec_read_varint(buf: Seq<u8>, pos: int) -> Option<(u64, int)>
    decreases buf.len() - pos,
{
    if 0 <= pos && pos < buf.len() {
        let b = buf[pos];
        if b < 128 {
            Some((b as u64, pos + 1))
        } else {
            match spec_read_varint(buf, pos + 1) {
                None => None,
                Some((rest, q)) => {
                    if rest <= (u64::MAX - (b - 128) as u64) as u64 / 128 {
                        Some((((b - 128) as u64 + 128 * rest) as u64, q))
                    } else {
                        None
                    }
                },
            }
        }
    } else {
        None
    }
}

/// A varint read always moves forward.
pub proof fn lemma_read_varint_advances(buf: Seq<u8>, pos: int)
    requires
        spec_read_varint(buf, pos) is Some,
    ensures
        spec_read_varint(buf, pos) matches Some(vp) && pos < vp.1 <= buf.len(),
    decreases buf.len() - pos,
{
    if buf[pos] >= 128 {
        lemma_read_varint_advances(buf, pos + 1);
    }
}

/// Reading an encoded varint back recovers the value.
pub proof fn lemma_read_varint_of_encoding(buf: Seq<u8>, pos: int, v: u64)
    requires
        0 <= pos,
        pos + spec_varint(v).len() <= buf.len(),
        buf.subrange(pos, pos + spec_varint(v).len()) == spec_varint(v),
    ensures
        spec_read_varint(buf, pos) == Some((v, pos + spec_varint(v).len())),
    decreases v,
{
    let e = spec_varint(v);
    assert(buf[pos] == e[0]);
    if v < 128 {
    } else {
        let b: u8 = (v % 128 + 128) as u8;
        assert(e == seq![b] + spec_varint(v / 128));
        lemma_subrange_of_matching(buf, pos, e, 1, e.len() as int);
        assert(e.subrange(1, e.len() as int) =~= spec_varint(v / 128));
        lemma_read_varint_of_encoding(buf, pos + 1, v / 128);
        assert((v / 128) <= (u64::MAX - (b - 128) as u64) as u64 / 128) by (nonlinear_arith)
            requires
                v <= u64::MAX,
                v >= 128,
                b == v % 128 + 128,
        ;
        assert((b - 128) as u64 + 128 * (v / 128) == v) by (nonlinear_arith)
            requires
                v >= 128,
                b == v % 128 + 128,
        ;
    }
}

/// Appends the varint encoding of `v`.
pub fn push_varint(out: &mut Vec<u8>, v: u64)
    ensures
        final(out)@ == old(out)@ + spec_varint(v),
{
    let mut x: u64 = v;
    while x >= 128
        invariant
            old(out)@ + spec_varint(v) == out@ + spec_varint(x),
        decreases x,
    {
        out.push((x % 128 + 128) as u8);
        proof {
            assert(out@ + spec_varint(x / 128) =~= old(out)@ + spec_varint(v));
        }
        x = x / 128;
    }
    out.push(x as u8);
    proof {
        assert(out@ =~= old(out)@ + spec_varint(v));
    }
}

/// Reads one varint at the cursor.
pub fn read_varint(buf: &[u8], head: &mut usize) -> (r: Result<u64, StorageProtoError>)
    ensures
        match spec_read_varint(buf@, *old(head) as int) {
            Some(vp) => r == Ok::<u64, StorageProtoError>(vp.0) && *final(head) == vp.1
                && *old(head) < vp.1 <= buf@.len(),
            None => r == Err::<u64, StorageProtoError>(StorageProtoError::Proto) && *final(head)
                == *old(head),
        },
    decreases buf@.len() - *old(head),
{
    proof {
        if spec_read_varint(buf@, *head as int) is Some {
            lemma_read_varint_advances(buf@, *head as int);
        }
    }
    if *head >= buf.len() {
        return Err(StorageProtoError::Proto);
    }
    let b: u8 = *slice_index_get(buf, *head);
    if b < 128 {
        *head = *head + 1;
        return Ok(b as u64);
    }
    let saved: usize = *head;
    *head = *head + 1;
    let rest = match read_varint(buf, head) {
        Ok(v) => v,
        Err(e) => {
            *head = saved;
            return Err(e);
        },
    };
    if rest <= (u64::MAX - (b - 128) as u64) / 128 {
        Ok((b - 128) as u64 + 128 * rest)
    } else {
        *head = saved;
        Err(StorageProtoError::Proto)
    }
}

// ---------------------------------------------------------------------------
// Length-delimited strings.
// ---------------------------------------------------------------------------

/// A string on the wire: varint byte length, then UTF-8 bytes.
pub open spec fn spec_proto_str_bytes(s: Seq<char>) -> Seq<u8> {
    spec_varint(encode_utf8(s).len() as u64) + encode_utf8(s)
}

pub open spec fn spec_read_proto_str(buf: Seq<u8>, pos: int) -> Option<(Seq<char>, int)> {
    match spec_read_varint(buf, pos) {
        None => None,
        Some((n, p)) => {
            if p + n <= buf.len() && valid_utf8(buf.subrange(p, p + n)) {
                Some((decode_utf8(buf.subrange(p, p + n)), p + n))
            } else {
                None
            }
        },
    }
}

pub proof fn lemma_read_proto_str_of_encoding(buf: Seq<u8>, pos: int, s: Seq<char>)
    requires
        0 <= pos,
        encode_utf8(s).len() <= u64::MAX,
        pos + spec_proto_str_bytes(s).len() <= buf.len(),
        buf.subrange(pos, pos + spec_proto_str_bytes(s).len()) == spec_proto_str_bytes(s),
    ensures
        spec_read_proto_str(buf, pos) == Some((s, pos + spec_proto_str_bytes(s).len())),
{
    let e = encode_utf8(s);
    let lv = spec_varint(e.len() as u64);
    let full = spec_proto_str_bytes(s);
    lemma_subrange_of_matching(buf, pos, full, 0, lv.len() as int);
    assert(full.subrange(0, lv.len() as int) =~= lv);
    lemma_read_varint_of_encoding(buf, pos, e.len() as u64);
    lemma_subrange_of_matching(buf, pos, full, lv.len() as int, full.len() as int);
    assert(full.subrange(lv.len() as int, full.len() as int) =~= e);
    encode_utf8_valid_utf8(s);
    encode_utf8_decode_utf8(s);
}

/// Reads one length-delimited string at the cursor.
fn read_proto_str(buf: &[u8], head: &mut usize) -> (r: Result<String, StorageProtoError>)
    ensures
        match spec_read_proto_str(buf@, *old(head) as int) {
            Some(vp) => r matches Ok(s) && s@ == vp.0 && *final(head) == vp.1
                && *old(head) < vp.1 <= buf@.len(),
            None => r == Err::<String, StorageProtoError>(StorageProtoError::Proto)
                && *final(head) == *old(head),
        },
{
    let saved: usize = *head;
    let n = match read_varint(buf, head) {
        Ok(v) => v,
        Err(e) => {
            return Err(e);
        },
    };
    if n <= (buf.len() - *head) as u64 {
        let n_us = n as usize;
        let s = slice_subrange(buf, *head, *head + n_us);
        let v = slice_to_vec(s);
        match crate::bytes::string_from_utf8(v) {
            Some(st) => {
                *head = *head + n_us;
                Ok(st)
            },
            None => {
                *head = saved;
                Err(StorageProtoError::Proto)
            },
        }
    } else {
        *head = saved;
        Err(StorageProtoError::Proto)
    }
}

// ---------------------------------------------------------------------------
// Entries.
// ---------------------------------------------------------------------------

/// One entry's fields on the wire, in canonical field order:
/// version (field 1, varint), container (2), package_map (3),
/// flag_map (4), flag_val (5), timestamp (6, varint).
pub open spec fn spec_info_bytes(f: StorageFileInfoSpec) -> Seq<u8> {
    seq![8u8] + spec_varint(f.version as u64) + seq![18u8] + spec_proto_str_bytes(f.container)
        + seq![26u8] + spec_proto_str_bytes(f.package_map) + seq![34u8] + spec_proto_str_bytes(
        f.flag_map,
    ) + seq![42u8] + spec_proto_str_bytes(f.flag_val) + seq![48u8] + spec_varint(f.timestamp)
}

pub open spec fn spec_read_info(buf: Seq<u8>, pos: int) -> Option<(StorageFileInfoSpec, int)> {
    match spec_read_u8(buf, pos) {
        None => None,
        Some((t1, p1)) => {
            if t1 != 8 {
                None
            } else {
                match spec_read_varint(buf, p1) {
                    None => None,
                    Some((version, p2)) => {
                        if version > u32::MAX as u64 {
                            None
                        } else {
                            match spec_read_u8(buf, p2) {
                                None => None,
                                Some((t2, p3)) => {
                                    if t2 != 18 {
                                        None
                                    } else {
                                        match spec_read_proto_str(buf, p3) {
                                            None => None,
                                            Some((container, p4)) => match spec_read_u8(buf, p4) {
                                                None => None,
                                                Some((t3, p5)) => {
                                                    if t3 != 26 {
                                                        None
                                                    } else {
                                                        match spec_read_proto_str(buf, p5) {
                                                            None => None,
                                                            Some((package_map, p6)) => match spec_read_u8(
                                                                buf,
                                                                p6,
                                                            ) {
                                                                None => None,
                                                                Some((t4, p7)) => {
                                                                    if t4 != 34 {
                                                                        None
                                                                    } else {
                                                                        match spec_read_proto_str(
                                                                            buf,
                                                                            p7,
                                                                        ) {
                                                                            None => None,
                                                                            Some(
                                                                                (flag_map, p8),
                                                                            ) => match spec_read_u8(
                                                                                buf,
                                                                                p8,
                                                                            ) {
                                                                                None => None,
                                                                                Some((t5, p9)) => {
                                                                                    if t5 != 42 {
                                                                                        None
                                                                                    } else {
                                                                                        match spec_read_proto_str(
                                                                                            buf,
                                                                                            p9,
                                                                                        ) {
                                                                                            None => None,
                                                                                            Some(
                                                                                                (flag_val, p10),
                                                                                            ) => match spec_read_u8(
                                                                                                buf,
                                                                                                p10,
                                                                                            ) {
                                                                                                None => None,
                                                                                                Some(
                                                                                                    (t6, p11),
                                                                                                ) => {
                                                                                                    if t6 != 48 {
                                                                                                        None
                                                                                                    } else {
                                                                                                        match spec_read_varint(
                                                                                                            buf,
                                                                                                            p11,
                                                                                                        ) {
                                                                                                            None => None,
                                                                                                            Some(
                                                                                                                (timestamp, p12),
                                                                                                            ) => Some(
                                                                                                                (
                                                                                                                    StorageFileInfoSpec {
                                                                                                                        version: version as u32,
                                                                                                                        container,
                                                                                                                        package_map,
                                                                                                                        flag_map,
                                                                                                                        flag_val,
                                                                                                                        timestamp,
                                                                                                                    },
                                                                                                                    p12,
                                                                                                                ),
                                                                                                            ),
                                                                                                        }
                                                                                                    }
                                                                                                },
                                                                                            },
                                                                                        }
                                                                                    }
                                                                                },
                                                                            },
                                                                        }
                                                                    }
                                                                },
                                                            },
                                                        }
                                                    }
                                                },
                                            },
                                        }
                                    }
                                },
                            }
                        }
                    },
                }
            }
        },
    }
}

/// Strings an entry carries fit the wire's length fields.
pub open spec fn spec_info_wf(f: StorageFileInfoSpec) -> bool {
    &&& encode_utf8(f.container).len() <= u64::MAX
    &&& encode_utf8(f.package_map).len() <= u64::MAX
    &&& encode_utf8(f.flag_map).len() <= u64::MAX
    &&& encode_utf8(f.flag_val).len() <= u64::MAX
}

/// Reading back an entry's serialized fields recovers the entry.
#[verifier::rlimit(100)]
#[verifier::spinoff_prover]
pub proof fn lemma_read_info_of_encoding(buf: Seq<u8>, pos: int, f: StorageFileInfoSpec)
    requires
        0 <= pos,
        spec_info_wf(f),
        pos + spec_info_bytes(f).len() <= buf.len(),
        buf.subrange(pos, pos + spec_info_bytes(f).len()) == spec_info_bytes(f),
    ensures
        spec_read_info(buf, pos) == Some((f, pos + spec_info_bytes(f).len())),
{
    let full = spec_info_bytes(f);
    let vv = spec_varint(f.version as u64);
    let cb = spec_proto_str_bytes(f.container);
    let pb = spec_proto_str_bytes(f.package_map);
    let fb = spec_proto_str_bytes(f.flag_map);
    let vb = spec_proto_str_bytes(f.flag_val);
    let tb = spec_varint(f.timestamp);
    let o1: int = 1;
    let o2: int = o1 + vv.len();
    let o3: int = o2 + 1;
    let o4: int = o3 + cb.len();
    let o5: int = o4 + 1;
    let o6: int = o5 + pb.len();
    let o7: int = o6 + 1;
    let o8: int = o7 + fb.len();
    let o9: int = o8 + 1;
    let o10: int = o9 + vb.len();
    let o11: int = o10 + 1;
    let o12: int = o11 + tb.len();
    assert(full.len() == o12);
    lemma_subrange_of_matching(buf, pos, full, 0, o1);
    assert(full.subrange(0, o1) =~= seq![8u8]);
    lemma_read_u8_of_encoding(buf, pos, 8u8);
    lemma_subrange_of_matching(buf, pos, full, o1, o2);
    assert(full.subrange(o1, o2) =~= vv);
    lemma_read_varint_of_encoding(buf, pos + o1, f.version as u64);
    lemma_subrange_of_matching(buf, pos, full, o2, o3);
    assert(full.subrange(o2, o3) =~= seq![18u8]);
    lemma_read_u8_of_encoding(buf, pos + o2, 18u8);
    lemma_subrange_of_matching(buf, pos, full, o3, o4);
    assert(full.subrange(o3, o4) =~= cb);
    lemma_read_proto_str_of_encoding(buf, pos + o3, f.container);
    lemma_subrange_of_matching(buf, pos, full, o4, o5);
    assert(full.subrange(o4, o5) =~= seq![26u8]);
    lemma_read_u8_of_encoding(buf, pos + o4, 26u8);
    lemma_subrange_of_matching(buf, pos, full, o5, o6);
    assert(full.subrange(o5, o6) =~= pb);
    lemma_read_proto_str_of_encoding(buf, pos + o5, f.package_map);
    lemma_subrange_of_matching(buf, pos, full, o6, o7);
    assert(full.subrange(o6, o7) =~= seq![34u8]);
    lemma_read_u8_of_encoding(buf, pos + o6, 34u8);
    lemma_subrange_of_matching(buf, pos, full, o7, o8);
    assert(full.subrange(o7, o8) =~= fb);
    lemma_read_proto_str_of_encoding(buf, pos + o7, f.flag_map);
    lemma_subrange_of_matching(buf, pos, full, o8, o9);
    assert(full.subrange(o8, o9) =~= seq![42u8]);
    lemma_read_u8_of_encoding(buf, pos + o8, 42u8);
    lemma_subrange_of_matching(buf, pos, full, o9, o10);
    assert(full.subrange(o9, o10) =~= vb);
    lemma_read_proto_str_of_encoding(buf, pos + o9, f.flag_val);
    lemma_subrange_of_matching(buf, pos, full, o10, o11);
    assert(full.subrange(o10, o11) =~= seq![48u8]);
    lemma_read_u8_of_encoding(buf, pos + o10, 48u8);
    lemma_subrange_of_matching(buf, pos, full, o11, o12);
    assert(full.subrange(o11, o12) =~= tb);
    lemma_read_varint_of_encoding(buf, pos + o11, f.timestamp);
}

/// One whole manifest entry on the wire: field 1 of the outer message,
/// length-delimited.
pub open spec fn spec_entry_bytes(f: StorageFileInfoSpec) -> Seq<u8> {
    seq![10u8] + spec_varint(spec_info_bytes(f).len() as u64) + spec_info_bytes(f)
}

pub open spec fn spec_read_entry(buf: Seq<u8>, pos: int) -> Option<(StorageFileInfoSpec, int)> {
    match spec_read_u8(buf, pos) {
        None => None,
        Some((t, p1)) => {
            if t != 10 {
                None
            } else {
                match spec_read_varint(buf, p1) {
                    None => None,
                    Some((n, p2)) => match spec_read_info(buf, p2) {
                        None => None,
                        Some((f, e)) => {
                            if e == p2 + n {
                                Some((f, e))
                            } else {
                                None
                            }
                        },
                    },
                }
            }
        },
    }
}

pub proof fn lemma_read_entry_of_encoding(buf: Seq<u8>, pos: int, f: StorageFileInfoSpec)
    requires
        0 <= pos,
        spec_info_wf(f),
        spec_info_bytes(f).len() <= u64::MAX,
        pos + spec_entry_bytes(f).len() <= buf.len(),
        buf.subrange(pos, pos + spec_entry_bytes(f).len()) == spec_entry_bytes(f),
    ensures
        spec_read_entry(buf, pos) == Some((f, pos + spec_entry_bytes(f).len())),
{
    let full = spec_entry_bytes(f);
    let ib = spec_info_bytes(f);
    let lv = spec_varint(ib.len() as u64);
    let o1: int = 1;
    let o2: int = o1 + lv.len();
    let o3: int = o2 + ib.len();
    assert(full.len() == o3);
    lemma_subrange_of_matching(buf, pos, full, 0, o1);
    assert(full.subrange(0, o1) =~= seq![10u8]);
    lemma_read_u8_of_encoding(buf, pos, 10u8);
    lemma_subrange_of_matching(buf, pos, full, o1, o2);
    assert(full.subrange(o1, o2) =~= lv);
    lemma_read_varint_of_encoding(buf, pos + o1, ib.len() as u64);
    lemma_subrange_of_matching(buf, pos, full, o2, o3);
    assert(full.subrange(o2, o3) =~= ib);
    lemma_read_info_of_encoding(buf, pos + o2, f);
}

// ---------------------------------------------------------------------------
// The whole manifest.
// ---------------------------------------------------------------------------

/// The serialized manifest: its entries in order.
pub open spec fn spec_files_bytes(files: Seq<StorageFileInfoSpec>) -> Seq<u8>
    decreases files.len(),
{
    if files.len() == 0 {
        Seq::empty()
    } else {
        spec_entry_bytes(files[0]) + spec_files_bytes(files.drop_first())
    }
}

/// Reads entries until the end of the buffer.
pub open spec fn spec_read_files(buf: Seq<u8>, pos: int) -> Option<
    (Seq<StorageFileInfoSpec>, int),
>
    decreases buf.len() - pos,
{
    if pos == buf.len() {
        Some((Seq::empty(), pos))
    } else if pos < 0 || pos > buf.len() {
        None
    } else {
        match spec_read_entry(buf, pos) {
            None => None,
            Some((f, q)) => {
                if q <= pos || q > buf.len() {
                    None
                } else {
                    match spec_read_files(buf, q) {
                        None => None,
                        Some((rest, e)) => Some((seq![f] + rest, e)),
                    }
                }
            },
        }
    }
}

/// Reading back a serialized manifest recovers its entries.
pub proof fn lemma_read_files_of_encoding(buf: Seq<u8>, pos: int, files: Seq<StorageFileInfoSpec>)
    requires
        0 <= pos,
        forall|k: int| 0 <= k < files.len() ==> spec_info_wf(#[trigger] files[k]),
        forall|k: int|
            0 <= k < files.len() ==> spec_info_bytes(#[trigger] files[k]).len() <= u64::MAX,
        pos + spec_files_bytes(files).len() == buf.len(),
        buf.subrange(pos, buf.len() as int) == spec_files_bytes(files),
    ensures
        spec_read_files(buf, pos) == Some((files, buf.len() as int)),
    decreases files.len(),
{
    if files.len() == 0 {
    } else {
        let f = files[0];
        let eb = spec_entry_bytes(f);
        let rest = files.drop_first();
        lemma_subrange_of_matching(buf, pos, spec_files_bytes(files), 0, eb.len() as int);
        assert(spec_files_bytes(files).subrange(0, eb.len() as int) =~= eb);
        lemma_read_entry_of_encoding(buf, pos, f);
        let q = pos + eb.len();
        lemma_subrange_of_matching(
            buf,
            pos,
            spec_files_bytes(files),
            eb.len() as int,
            spec_files_bytes(files).len() as int,
        );
        assert(spec_files_bytes(files).subrange(
            eb.len() as int,
            spec_files_bytes(files).len() as int,
        ) =~= spec_files_bytes(rest));
        assert(buf.subrange(q, buf.len() as int) =~= spec_files_bytes(rest));
        assert(forall|k: int| 0 <= k < rest.len() ==> spec_info_wf(#[trigger] rest[k]));
        assert(forall|k: int|
            0 <= k < rest.len() ==> spec_info_bytes(#[trigger] rest[k]).len() <= u64::MAX);
        lemma_read_files_of_encoding(buf, q, rest);
        assert(eb.len() > 0);
        assert(seq![f] + rest =~= files);
    }
}

/// Appending one file to a manifest appends its entry's bytes.
pub proof fn lemma_files_bytes_snoc(files: Seq<StorageFileInfoSpec>, f: StorageFileInfoSpec)
    ensures
        spec_files_bytes(files.push(f)) == spec_files_bytes(files) + spec_entry_bytes(f),
    decreases files.len(),
{
    if files.len() == 0 {
        assert(files.push(f)[0] == f);
        let dropped = files.push(f).drop_first();
        assert(dropped =~= Seq::<StorageFileInfoSpec>::empty());
        assert(spec_files_bytes(dropped) == Seq::<u8>::empty());
        assert(spec_files_bytes(files.push(f)) =~= spec_entry_bytes(f));
        assert(spec_files_bytes(files) + spec_entry_bytes(f) =~= spec_entry_bytes(f));
    } else {
        assert(files.push(f).drop_first() =~= files.drop_first().push(f));
        lemma_files_bytes_snoc(files.drop_first(), f);
        assert(files.push(f)[0] == files[0]);
        assert(spec_files_bytes(files.push(f)) =~= spec_files_bytes(files) + spec_entry_bytes(f));
    }
}

// ---------------------------------------------------------------------------
// Validation.
// ---------------------------------------------------------------------------

/// Whether one entry carries all three mandatory paths.
pub open spec fn spec_entry_complete(f: StorageFileInfoSpec) -> bool {
    f.package_map.len() > 0 && f.flag_map.len() > 0 && f.flag_val.len() > 0
}

/// The error that validation reports: the entry at `k` is the first
/// incomplete one, and the error names its first missing field and its
/// container.
pub open spec fn spec_validation_error(files: Seq<StorageFileInfoSpec>, e: StorageProtoError) -> bool {
    exists|k: int|
        0 <= k < files.len() && !spec_entry_complete(#[trigger] files[k]) && (forall|k2: int|
            0 <= k2 < k ==> spec_entry_complete(#[trigger] files[k2])) && (if files[
            k
        ].package_map.len() == 0 {
            e matches StorageProtoError::MissingPackageMap { container } && container@ == files[
                k
            ].container
        } else if files[k].flag_map.len() == 0 {
            e matches StorageProtoError::MissingFlagMap { container } && container@ == files[
                k
            ].container
        } else {
            e matches StorageProtoError::MissingFlagValue { container } && container@ == files[
                k
            ].container
        })
}

/// Validates that every entry names all three storage files.
///
/// Fails closed on the first entry missing one, naming its container:
/// the missing-package-map error when the package map path is empty,
/// else the missing-flag-map error when the flag map path is empty,
/// else the missing-flag-value error.
pub fn verify_fields(storage_files: &StorageFiles) -> (r: Result<(), StorageProtoError>)
    ensures
        r is Ok <==> forall|k: int|
            0 <= k < storage_files@.len() ==> spec_entry_complete(#[trigger] storage_files@[k]),
        r matches Err(e) ==> spec_validation_error(storage_files@, e),
{
    let n = storage_files.files.len();
    let mut k: usize = 0;
    while k < n
        invariant
            k <= n,
            n == storage_files@.len(),
            forall|k2: int|
                0 <= k2 < k ==> spec_entry_complete(#[trigger] storage_files@[k2]),
        decreases n - k,
    {
        let info = &storage_files.files[k];
        proof {
            assert(info@ == storage_files@[k as int]);
        }
        if info.package_map.as_str().is_empty() {
            proof {
                assert(!spec_entry_complete(storage_files@[k as int]));
            }
            return Err(
                StorageProtoError::MissingPackageMap { container: info.container.clone() },
            );
        }
        if info.flag_map.as_str().is_empty() {
            proof {
                assert(!spec_entry_complete(storage_files@[k as int]));
            }
            return Err(StorageProtoError::MissingFlagMap { container: info.container.clone() });
        }
        if info.flag_val.as_str().is_empty() {
            proof {
                assert(!spec_entry_complete(storage_files@[k as int]));
            }
            return Err(StorageProtoError::MissingFlagValue { container: info.container.clone() });
        }
        k = k + 1;
    }
    Ok(())
}

/// Serializes a manifest into its canonical binary form.
pub fn to_binary_proto(storage_files: &StorageFiles) -> (r: Vec<u8>)
    ensures
        r@ == spec_files_bytes(storage_files@),
{
    let mut result: Vec<u8> = Vec::new();
    let n = storage_files.files.len();
    let mut k: usize = 0;
    while k < n
        invariant
            k <= n,
            n == storage_files@.len(),
            result@ == spec_files_bytes(storage_files@.subrange(0, k as int)),
        decreases n - k,
    {
        let info = &storage_files.files[k];
        let mut body = write_info(info);
        result.push(10);
        push_varint(&mut result, body.len() as u64);
        result.append(&mut body);
        proof {
            lemma_files_bytes_snoc(storage_files@.subrange(0, k as int), info@);
            assert(storage_files@.subrange(0, k as int).push(info@) =~= storage_files@.subrange(
                0,
                k as int + 1,
            ));
            assert(result@ =~= spec_files_bytes(storage_files@.subrange(0, k as int + 1)));
        }
        k = k + 1;
    }
    proof {
        assert(storage_files@.subrange(0, n as int) =~= storage_files@);
    }
    result
}

/// Serializes one entry's field sequence.
#[verifier::rlimit(50)]
fn write_info(info: &StorageFileInfo) -> (r: Vec<u8>)
    ensures
        r@ == spec_info_bytes(info@),
{
    let mut body: Vec<u8> = Vec::new();
    body.push(8);
    push_varint(&mut body, info.version as u64);
    body.push(18);
    push_proto_str(&mut body, info.container.as_str());
    body.push(26);
    push_proto_str(&mut body, info.package_map.as_str());
    body.push(34);
    push_proto_str(&mut body, info.flag_map.as_str());
    body.push(42);
    push_proto_str(&mut body, info.flag_val.as_str());
    body.push(48);
    push_varint(&mut body, info.timestamp);
    proof {
        assert(body@ =~= spec_info_bytes(info@));
    }
    body
}

/// Appends one length-delimited string field body.
fn push_proto_str(out: &mut Vec<u8>, s: &str)
    ensures
        final(out)@ == old(out)@ + spec_proto_str_bytes(s@),
{
    let b = s.as_bytes();
    proof {
        crate::bytes::lemma_encode_utf8_len_bound(s@);
    }
    push_varint(out, b.len() as u64);
    let mut v = slice_to_vec(b);
    out.append(&mut v);
    proof {
        assert(out@ =~= old(out)@ + spec_proto_str_bytes(s@));
    }
}

/// Reads one manifest entry at the cursor.
fn read_entry(buf: &[u8], head: &mut usize) -> (r: Result<StorageFileInfo, StorageProtoError>)
    ensures
        match spec_read_entry(buf@, *old(head) as int) {
            Some(fp) => r matches Ok(f) && f@ == fp.0 && *final(head) == fp.1 && *old(head)
                < fp.1 <= buf@.len(),
            None => r == Err::<StorageFileInfo, StorageProtoError>(StorageProtoError::Proto)
                && *final(head) == *old(head),
        },
{
    let saved: usize = *head;
    let tag = match read_tag(buf, head) {
        Ok(v) => v,
        Err(e) => {
            return Err(e);
        },
    };
    if tag != 10 {
        *head = saved;
        return Err(StorageProtoError::Proto);
    }
    let n = match read_varint(buf, head) {
        Ok(v) => v,
        Err(e) => {
            *head = saved;
            return Err(e);
        },
    };
    let body_start: usize = *head;
    let info = match read_info(buf, head) {
        Ok(v) => v,
        Err(e) => {
            *head = saved;
            return Err(e);
        },
    };
    if ((*head - body_start) as u64) == n {
        Ok(info)
    } else {
        *head = saved;
        Err(StorageProtoError::Proto)
    }
}

/// Reads one tag byte at the cursor.
fn read_tag(buf: &[u8], head: &mut usize) -> (r: Result<u8, StorageProtoError>)
    ensures
        match spec_read_u8(buf@, *old(head) as int) {
            Some(vp) => r == Ok::<u8, StorageProtoError>(vp.0) && *final(head) == vp.1,
            None => r == Err::<u8, StorageProtoError>(StorageProtoError::Proto) && *final(head)
                == *old(head),
        },
{
    if *head < buf.len() {
        let v: u8 = *slice_index_get(buf, *head);
        *head = *head + 1;
        Ok(v)
    } else {
        Err(StorageProtoError::Proto)
    }
}

/// Reads one entry's field sequence at the cursor.
fn read_info(buf: &[u8], head: &mut usize) -> (r: Result<StorageFileInfo, StorageProtoError>)
    ensures
        match spec_read_info(buf@, *old(head) as int) {
            Some(fp) => r matches Ok(f) && f@ == fp.0 && *final(head) == fp.1
                && *old(head) < fp.1 <= buf@.len(),
            None => r == Err::<StorageFileInfo, StorageProtoError>(StorageProtoError::Proto)
                && *final(head) == *old(head),
        },
{
    let saved: usize = *head;
    let t1 = match read_tag(buf, head) {
        Ok(v) => v,
        Err(e) => {
            return Err(e);
        },
    };
    if t1 != 8 {
        *head = saved;
        return Err(StorageProtoError::Proto);
    }
    let version64 = match read_varint(buf, head) {
        Ok(v) => v,
        Err(e) => {
            *head = saved;
            return Err(e);
        },
    };
    if version64 > u32::MAX as u64 {
        *head = saved;
        return Err(StorageProtoError::Proto);
    }
    let t2 = match read_tag(buf, head) {
        Ok(v) => v,
        Err(e) => {
            *head = saved;
            return Err(e);
        },
    };
    if t2 != 18 {
        *head = saved;
        return Err(StorageProtoError::Proto);
    }
    let container = match read_proto_str(buf, head) {
        Ok(v) => v,
        Err(e) => {
            *head = saved;
            return Err(e);
        },
    };
    let t3 = match read_tag(buf, head) {
        Ok(v) => v,
        Err(e) => {
            *head = saved;
            return Err(e);
        },
    };
    if t3 != 26 {
        *head = saved;
        return Err(StorageProtoError::Proto);
    }
    let package_map = match read_proto_str(buf, head) {
        Ok(v) => v,
        Err(e) => {
            *head = saved;
            return Err(e);
        },
    };
    let t4 = match read_tag(buf, head) {
        Ok(v) => v,
        Err(e) => {
            *head = saved;
            return Err(e);
        },
    };
    if t4 != 34 {
        *head = saved;
        return Err(StorageProtoError::Proto);
    }
    let flag_map = match read_proto_str(buf, head) {
        Ok(v) => v,
        Err(e) => {
            *head = saved;
            return Err(e);
        },
    };
    let t5 = match read_tag(buf, head) {
        Ok(v) => v,
        Err(e) => {
            *head = saved;
            return Err(e);
        },
    };
    if t5 != 42 {
        *head = saved;
        return Err(StorageProtoError::Proto);
    }
    let flag_val = match read_proto_str(buf, head) {
        Ok(v) => v,
        Err(e) => {
            *head = saved;
            return Err(e);
        },
    };
    let t6 = match read_tag(buf, head) {
        Ok(v) => v,
        Err(e) => {
            *head = saved;
            return Err(e);
        },
    };
    if t6 != 48 {
        *head = saved;
        return Err(StorageProtoError::Proto);
    }
    let timestamp = match read_varint(buf, head) {
        Ok(v) => v,
        Err(e) => {
            *head = saved;
            return Err(e);
        },
    };
    Ok(
        StorageFileInfo {
            version: version64 as u32,
            container,
            package_map,
            flag_map,
            flag_val,
            timestamp,
        },
    )
}

fn read_files_rec(buf: &[u8], head: &mut usize) -> (r: Result<
    Vec<StorageFileInfo>,
    StorageProtoError,
>)
    ensures
        match spec_read_files(buf@, *old(head) as int) {
            Some(fp) => r matches Ok(v) && v@.map_values(|f: StorageFileInfo| f@) == fp.0
                && *final(head) == fp.1,
            None => r is Err,
        },
    decreases buf@.len() - *old(head),
{
    if *head == buf.len() {
        let empty: Vec<StorageFileInfo> = Vec::new();
        proof {
            assert(empty@.map_values(|f: StorageFileInfo| f@) =~= Seq::<
                StorageFileInfoSpec,
            >::empty());
        }
        return Ok(empty);
    }
    if *head > buf.len() {
        return Err(StorageProtoError::Proto);
    }
    let f = match read_entry(buf, head) {
        Ok(v) => v,
        Err(e) => {
            return Err(e);
        },
    };
    let mut rest = match read_files_rec(buf, head) {
        Ok(v) => v,
        Err(e) => {
            return Err(e);
        },
    };
    let ghost rest_views = rest@.map_values(|f2: StorageFileInfo| f2@);
    rest.insert(0, f);
    proof {
        assert(rest@.map_values(|f2: StorageFileInfo| f2@) =~= seq![f@] + rest_views);
    }
    Ok(rest)
}

/// Parses a serialized manifest and validates it.
///
/// Succeeds exactly when the bytes are a canonical serialized manifest
/// whose every entry names its three storage files; a validation
/// failure carries the failing entry's error from the field check.
pub fn try_from_binary_proto(bytes: &[u8]) -> (r: Result<StorageFiles, StorageProtoError>)
    ensures
        match spec_read_files(bytes@, 0) {
            None => r == Err::<StorageFiles, StorageProtoError>(StorageProtoError::Proto),
            Some(fp) => {
                if forall|k: int|
                    0 <= k < fp.0.len() ==> spec_entry_complete(#[trigger] fp.0[k]) {
                    r matches Ok(m) && m@ == fp.0
                } else {
                    r matches Err(e) && spec_validation_error(fp.0, e)
                }
            },
        },
{
    let mut head: usize = 0;
    let files = match read_files_rec(bytes, &mut head) {
        Ok(v) => v,
        Err(_) => {
            return Err(StorageProtoError::Proto);
        },
    };
    let message = StorageFiles { files };
    proof {
        match spec_read_files(bytes@, 0) {
            Some(fp) => {
                assert(message@ == fp.0);
            },
            None => {
                assert(false);
            },
        }
    }
    match verify_fields(&message) {
        Ok(_) => Ok(message),
        Err(e) => Err(e),
    }
}

} // verus!
