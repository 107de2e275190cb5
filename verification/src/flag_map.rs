//! The flag map storage file: the on-disk flag table, keyed by package
//! id and flag name, mapping each flag to its offset within its
//! package's boolean value range. It follows the package map's pattern;
//! its nodes carry no fingerprint in any version.

use vstd::prelude::*;
use vstd::bytes::{spec_u16_to_le_bytes, spec_u32_to_le_bytes};
use crate::bytes::{
    spec_read_u8, spec_read_u16, spec_read_u32, spec_read_str, spec_str_bytes, str_bytes_wf,
    read_u8_from_bytes, read_u16_from_bytes, read_u32_from_bytes, read_str_from_bytes, push_u8,
    push_u16_le, push_u32_le, push_str_bytes, lemma_subrange_of_matching,
    lemma_read_u8_of_encoding, lemma_read_u16_of_encoding, lemma_read_u32_of_encoding,
    lemma_read_str_of_encoding, lemma_u16_le_len, lemma_u32_le_len, lemma_str_bytes_len,
};
use crate::package_map::{spec_slots_bytes, spec_read_slots, lemma_read_slots_fail,
    lemma_read_slots_of_encoding, lemma_slots_bytes_len};
use crate::AconfigStorageError;

verus! {

/// The stored type of a flag; only boolean flags exist so far.
#[derive(Clone, Copy, Debug, PartialEq, Eq, Structural)]
pub enum StoredFlagType {
    ReadWriteBoolean,
    ReadOnlyBoolean,
    FixedReadOnlyBoolean,
}

impl StoredFlagType {
    pub open spec fn spec_code(self) -> u16 {
        match self {
            StoredFlagType::ReadWriteBoolean => 0,
            StoredFlagType::ReadOnlyBoolean => 1,
            StoredFlagType::FixedReadOnlyBoolean => 2,
        }
    }

    /// The on-disk code of this flag type.
    pub fn code(&self) -> (r: u16)
        ensures
            r == self.spec_code(),
    {
        match self {
            StoredFlagType::ReadWriteBoolean => 0,
            StoredFlagType::ReadOnlyBoolean => 1,
            StoredFlagType::FixedReadOnlyBoolean => 2,
        }
    }

    /// The flag type a code stands for, if any.
    pub fn from_code(v: u16) -> (r: Option<StoredFlagType>)
        ensures
            v == 0 ==> r == Some(StoredFlagType::ReadWriteBoolean),
            v == 1 ==> r == Some(StoredFlagType::ReadOnlyBoolean),
            v == 2 ==> r == Some(StoredFlagType::FixedReadOnlyBoolean),
            v > 2 ==> r is None,
    {
        match v {
            0 => Some(StoredFlagType::ReadWriteBoolean),
            1 => Some(StoredFlagType::ReadOnlyBoolean),
            2 => Some(StoredFlagType::FixedReadOnlyBoolean),
            _ => None,
        }
    }
}

/// Mathematical model of a flag map header.
pub ghost struct FlagTableHeaderSpec {
    pub version: u32,
    pub container: Seq<char>,
    pub file_type: u8,
    pub file_size: u32,
    pub num_flags: u32,
    pub bucket_offset: u32,
    pub node_offset: u32,
}

/// Header of a flag map file.
#[derive(Debug, PartialEq, Eq)]
pub struct FlagTableHeader {
    pub version: u32,
    pub container: String,
    pub file_type: u8,
    pub file_size: u32,
    pub num_flags: u32,
    pub bucket_offset: u32,
    pub node_offset: u32,
}

impl View for FlagTableHeader {
    type V = FlagTableHeaderSpec;

    open spec fn view(&self) -> FlagTableHeaderSpec {
        FlagTableHeaderSpec {
            version: self.version,
            container: self.container@,
            file_type: self.file_type,
            file_size: self.file_size,
            num_flags: self.num_flags,
            bucket_offset: self.bucket_offset,
            node_offset: self.node_offset,
        }
    }
}

impl FlagTableHeaderSpec {
    pub open spec fn spec_bytes(self) -> Seq<u8> {
        spec_u32_to_le_bytes(self.version) + spec_str_bytes(self.container) + seq![self.file_type]
            + spec_u32_to_le_bytes(self.file_size) + spec_u32_to_le_bytes(self.num_flags)
            + spec_u32_to_le_bytes(self.bucket_offset) + spec_u32_to_le_bytes(self.node_offset)
    }

    pub open spec fn spec_read(buf: Seq<u8>, pos: int) -> Option<(FlagTableHeaderSpec, int)> {
        match spec_read_u32(buf, pos) {
            None => None,
            Some((version, p1)) => match spec_read_str(buf, p1) {
                None => None,
                Some((container, p2)) => match spec_read_u8(buf, p2) {
                    None => None,
                    Some((file_type, p3)) => match spec_read_u32(buf, p3) {
                        None => None,
                        Some((file_size, p4)) => match spec_read_u32(buf, p4) {
                            None => None,
                            Some((num_flags, p5)) => match spec_read_u32(buf, p5) {
                                None => None,
                                Some((bucket_offset, p6)) => match spec_read_u32(buf, p6) {
                                    None => None,
                                    Some((node_offset, p7)) => Some(
                                        (
                                            FlagTableHeaderSpec {
                                                version,
                                                container,
                                                file_type,
                                                file_size,
                                                num_flags,
                                                bucket_offset,
                                                node_offset,
                                            },
                                            p7,
                                        ),
                                    ),
                                },
                            },
                        },
                    },
                },
            },
        }
    }
}

/// Reading a serialized flag map header back recovers it.
pub proof fn lemma_flag_map_header_read_of_encoding(
    buf: Seq<u8>,
    pos: int,
    h: FlagTableHeaderSpec,
)
    requires
        0 <= pos,
        str_bytes_wf(h.container),
        pos + h.spec_bytes().len() <= buf.len(),
        buf.subrange(pos, pos + h.spec_bytes().len()) == h.spec_bytes(),
    ensures
        FlagTableHeaderSpec::spec_read(buf, pos) == Some((h, pos + h.spec_bytes().len())),
{
    let full = h.spec_bytes();
    let sb = spec_str_bytes(h.container);
    lemma_u32_le_len(h.version);
    lemma_u32_le_len(h.file_size);
    lemma_u32_le_len(h.num_flags);
    lemma_u32_le_len(h.bucket_offset);
    lemma_u32_le_len(h.node_offset);
    lemma_str_bytes_len(h.container);
    let o1: int = 4;
    let o2: int = o1 + sb.len();
    let o3: int = o2 + 1;
    let o4: int = o3 + 4;
    let o5: int = o4 + 4;
    let o6: int = o5 + 4;
    let o7: int = o6 + 4;
    assert(full.len() == o7);
    lemma_subrange_of_matching(buf, pos, full, 0, o1);
    assert(full.subrange(0, o1) =~= spec_u32_to_le_bytes(h.version));
    lemma_read_u32_of_encoding(buf, pos, h.version);
    lemma_subrange_of_matching(buf, pos, full, o1, o2);
    assert(full.subrange(o1, o2) =~= sb);
    lemma_read_str_of_encoding(buf, pos + o1, h.container);
    lemma_subrange_of_matching(buf, pos, full, o2, o3);
    assert(full.subrange(o2, o3) =~= seq![h.file_type]);
    lemma_read_u8_of_encoding(buf, pos + o2, h.file_type);
    lemma_subrange_of_matching(buf, pos, full, o3, o4);
    assert(full.subrange(o3, o4) =~= spec_u32_to_le_bytes(h.file_size));
    lemma_read_u32_of_encoding(buf, pos + o3, h.file_size);
    lemma_subrange_of_matching(buf, pos, full, o4, o5);
    assert(full.subrange(o4, o5) =~= spec_u32_to_le_bytes(h.num_flags));
    lemma_read_u32_of_encoding(buf, pos + o4, h.num_flags);
    lemma_subrange_of_matching(buf, pos, full, o5, o6);
    assert(full.subrange(o5, o6) =~= spec_u32_to_le_bytes(h.bucket_offset));
    lemma_read_u32_of_encoding(buf, pos + o5, h.bucket_offset);
    lemma_subrange_of_matching(buf, pos, full, o6, o7);
    assert(full.subrange(o6, o7) =~= spec_u32_to_le_bytes(h.node_offset));
    lemma_read_u32_of_encoding(buf, pos + o6, h.node_offset);
}

/// Mathematical model of a flag map node.
pub ghost struct FlagTableNodeSpec {
    pub package_id: u32,
    pub flag_name: Seq<char>,
    pub flag_type: u16,
    pub flag_index: u16,
    pub next_offset: Option<u32>,
}

/// One flag entry of a flag map file: key (package id and flag name),
/// stored type, and the flag's offset within its package's range.
#[derive(Debug, PartialEq, Eq)]
pub struct FlagTableNode {
    pub package_id: u32,
    pub flag_name: String,
    pub flag_type: u16,
    pub flag_index: u16,
    pub next_offset: Option<u32>,
}

impl View for FlagTableNode {
    type V = FlagTableNodeSpec;

    open spec fn view(&self) -> FlagTableNodeSpec {
        FlagTableNodeSpec {
            package_id: self.package_id,
            flag_name: self.flag_name@,
            flag_type: self.flag_type,
            flag_index: self.flag_index,
            next_offset: self.next_offset,
        }
    }
}

impl FlagTableNodeSpec {
    pub open spec fn spec_bytes(self) -> Seq<u8> {
        spec_u32_to_le_bytes(self.package_id) + spec_str_bytes(self.flag_name)
            + spec_u16_to_le_bytes(self.flag_type) + spec_u16_to_le_bytes(self.flag_index)
            + spec_u32_to_le_bytes(
            match self.next_offset {
                Some(o) => o,
                None => 0,
            },
        )
    }

    pub open spec fn wf(self) -> bool {
        &&& str_bytes_wf(self.flag_name)
        &&& self.next_offset != Some(0u32)
    }

    pub open spec fn spec_read(buf: Seq<u8>, pos: int) -> Option<(FlagTableNodeSpec, int)> {
        match spec_read_u32(buf, pos) {
            None => None,
            Some((package_id, p1)) => match spec_read_str(buf, p1) {
                None => None,
                Some((flag_name, p2)) => match spec_read_u16(buf, p2) {
                    None => None,
                    Some((flag_type, p3)) => match spec_read_u16(buf, p3) {
                        None => None,
                        Some((flag_index, p4)) => match spec_read_u32(buf, p4) {
                            None => None,
                            Some((next_raw, p5)) => Some(
                                (
                                    FlagTableNodeSpec {
                                        package_id,
                                        flag_name,
                                        flag_type,
                                        flag_index,
                                        next_offset: if next_raw == 0 {
                                            None
                                        } else {
                                            Some(next_raw)
                                        },
                                    },
                                    p5,
                                ),
                            ),
                        },
                    },
                },
            },
        }
    }
}

/// Reading a serialized flag map node back recovers it.
pub proof fn lemma_flag_map_node_read_of_encoding(buf: Seq<u8>, pos: int, n: FlagTableNodeSpec)
    requires
        0 <= pos,
        n.wf(),
        pos + n.spec_bytes().len() <= buf.len(),
        buf.subrange(pos, pos + n.spec_bytes().len()) == n.spec_bytes(),
    ensures
        FlagTableNodeSpec::spec_read(buf, pos) == Some((n, pos + n.spec_bytes().len())),
{
    let full = n.spec_bytes();
    let sb = spec_str_bytes(n.flag_name);
    let next_raw: u32 = match n.next_offset {
        Some(o) => o,
        None => 0,
    };
    lemma_u32_le_len(n.package_id);
    lemma_u32_le_len(next_raw);
    lemma_u16_le_len(n.flag_type);
    lemma_u16_le_len(n.flag_index);
    lemma_str_bytes_len(n.flag_name);
    let o1: int = 4;
    let o2: int = o1 + sb.len();
    let o3: int = o2 + 2;
    let o4: int = o3 + 2;
    let o5: int = o4 + 4;
    assert(full.len() == o5);
    lemma_subrange_of_matching(buf, pos, full, 0, o1);
    assert(full.subrange(0, o1) =~= spec_u32_to_le_bytes(n.package_id));
    lemma_read_u32_of_encoding(buf, pos, n.package_id);
    lemma_subrange_of_matching(buf, pos, full, o1, o2);
    assert(full.subrange(o1, o2) =~= sb);
    lemma_read_str_of_encoding(buf, pos + o1, n.flag_name);
    lemma_subrange_of_matching(buf, pos, full, o2, o3);
    assert(full.subrange(o2, o3) =~= spec_u16_to_le_bytes(n.flag_type));
    lemma_read_u16_of_encoding(buf, pos + o2, n.flag_type);
    lemma_subrange_of_matching(buf, pos, full, o3, o4);
    assert(full.subrange(o3, o4) =~= spec_u16_to_le_bytes(n.flag_index));
    lemma_read_u16_of_encoding(buf, pos + o3, n.flag_index);
    lemma_subrange_of_matching(buf, pos, full, o4, o5);
    assert(full.subrange(o4, o5) =~= spec_u32_to_le_bytes(next_raw));
    lemma_read_u32_of_encoding(buf, pos + o4, next_raw);
}

pub open spec fn spec_flag_nodes_bytes(nodes: Seq<FlagTableNodeSpec>) -> Seq<u8>
    decreases nodes.len(),
{
    if nodes.len() == 0 {
        Seq::empty()
    } else {
        spec_flag_nodes_bytes(nodes.drop_last()) + nodes.last().spec_bytes()
    }
}

pub open spec fn spec_read_flag_nodes(buf: Seq<u8>, pos: int, count: nat) -> Option<
    (Seq<FlagTableNodeSpec>, int),
>
    decreases count,
{
    if count == 0 {
        Some((Seq::empty(), pos))
    } else {
        match spec_read_flag_nodes(buf, pos, (count - 1) as nat) {
            None => None,
            Some((s, p)) => match FlagTableNodeSpec::spec_read(buf, p) {
                None => None,
                Some((n, q)) => Some((s.push(n), q)),
            },
        }
    }
}

pub proof fn lemma_read_flag_nodes_fail(buf: Seq<u8>, pos: int, i: nat, count: nat)
    requires
        i < count,
        spec_read_flag_nodes(buf, pos, i) matches Some(sp) && FlagTableNodeSpec::spec_read(
            buf,
            sp.1,
        ) is None,
    ensures
        spec_read_flag_nodes(buf, pos, count) is None,
    decreases count,
{
    if count - 1 > i {
        lemma_read_flag_nodes_fail(buf, pos, i, (count - 1) as nat);
    }
}

/// Reading back an encoded flag node region recovers it.
pub proof fn lemma_read_flag_nodes_of_encoding(
    buf: Seq<u8>,
    pos: int,
    nodes: Seq<FlagTableNodeSpec>,
)
    requires
        0 <= pos,
        pos + spec_flag_nodes_bytes(nodes).len() <= buf.len(),
        buf.subrange(pos, pos + spec_flag_nodes_bytes(nodes).len()) == spec_flag_nodes_bytes(
            nodes,
        ),
        forall|i: int| 0 <= i < nodes.len() ==> (#[trigger] nodes[i]).wf(),
    ensures
        spec_read_flag_nodes(buf, pos, nodes.len()) == Some(
            (nodes, pos + spec_flag_nodes_bytes(nodes).len()),
        ),
    decreases nodes.len(),
{
    if nodes.len() > 0 {
        let pre = nodes.drop_last();
        let last = nodes.last();
        let prelen = spec_flag_nodes_bytes(pre).len() as int;
        lemma_subrange_of_matching(buf, pos, spec_flag_nodes_bytes(nodes), 0, prelen);
        assert(spec_flag_nodes_bytes(nodes).subrange(0, prelen) =~= spec_flag_nodes_bytes(pre));
        assert(forall|i: int| 0 <= i < pre.len() ==> (#[trigger] pre[i]).wf());
        lemma_read_flag_nodes_of_encoding(buf, pos, pre);
        lemma_subrange_of_matching(
            buf,
            pos,
            spec_flag_nodes_bytes(nodes),
            prelen,
            prelen + last.spec_bytes().len(),
        );
        assert(spec_flag_nodes_bytes(nodes).subrange(prelen, prelen + last.spec_bytes().len())
            =~= last.spec_bytes());
        lemma_flag_map_node_read_of_encoding(buf, pos + prelen, last);
        assert(pre.push(last) =~= nodes);
    }
}

/// Mathematical model of a flag map file.
pub ghost struct FlagTableSpec {
    pub header: FlagTableHeaderSpec,
    pub buckets: Seq<Option<u32>>,
    pub nodes: Seq<FlagTableNodeSpec>,
}

/// A decoded flag map file.
#[derive(Debug, PartialEq, Eq)]
pub struct FlagTable {
    pub header: FlagTableHeader,
    pub buckets: Vec<Option<u32>>,
    pub nodes: Vec<FlagTableNode>,
}

impl View for FlagTable {
    type V = FlagTableSpec;

    open spec fn view(&self) -> FlagTableSpec {
        FlagTableSpec {
            header: self.header@,
            buckets: self.buckets@,
            nodes: self.nodes@.map_values(|n: FlagTableNode| n@),
        }
    }
}

impl FlagTableSpec {
    pub open spec fn spec_bytes(self) -> Seq<u8> {
        self.header.spec_bytes() + spec_slots_bytes(self.buckets) + spec_flag_nodes_bytes(
            self.nodes,
        )
    }

    pub open spec fn wf(self) -> bool {
        &&& str_bytes_wf(self.header.container)
        &&& self.header.bucket_offset == self.header.spec_bytes().len()
        &&& self.header.node_offset == self.header.bucket_offset + 4 * self.buckets.len()
        &&& self.header.num_flags == self.nodes.len()
        &&& forall|i: int| 0 <= i < self.nodes.len() ==> (#[trigger] self.nodes[i]).wf()
        &&& forall|b: int| 0 <= b < self.buckets.len() ==> #[trigger] self.buckets[b] != Some(0u32)
    }

    pub open spec fn spec_from_bytes(buf: Seq<u8>) -> Option<FlagTableSpec> {
        match FlagTableHeaderSpec::spec_read(buf, 0) {
            None => None,
            Some((h, p)) => {
                if h.node_offset < h.bucket_offset {
                    None
                } else {
                    let nbuck = ((h.node_offset - h.bucket_offset) as int / 4) as nat;
                    match spec_read_slots(buf, p, nbuck) {
                        None => None,
                        Some((slots, p2)) => match spec_read_flag_nodes(
                            buf,
                            p2,
                            h.num_flags as nat,
                        ) {
                            None => None,
                            Some((nodes, _)) => Some(
                                FlagTableSpec { header: h, buckets: slots, nodes },
                            ),
                        },
                    }
                }
            },
        }
    }
}

/// Round trip: decoding a serialized flag map recovers it field for
/// field.
pub proof fn lemma_flag_map_round_trip(t: FlagTableSpec)
    requires
        t.wf(),
    ensures
        FlagTableSpec::spec_from_bytes(t.spec_bytes()) == Some(t),
{
    let buf = t.spec_bytes();
    let hb = t.header.spec_bytes();
    let sb = spec_slots_bytes(t.buckets);
    let nb = spec_flag_nodes_bytes(t.nodes);
    assert(buf.subrange(0, hb.len() as int) =~= hb);
    lemma_flag_map_header_read_of_encoding(buf, 0, t.header);
    lemma_slots_bytes_len(t.buckets);
    assert(buf.subrange(hb.len() as int, hb.len() as int + sb.len() as int) =~= sb);
    lemma_read_slots_of_encoding(buf, hb.len() as int, t.buckets);
    assert(buf.subrange(hb.len() as int + sb.len() as int, buf.len() as int) =~= nb);
    lemma_read_flag_nodes_of_encoding(buf, hb.len() as int + sb.len() as int, t.nodes);
    assert(((t.header.node_offset - t.header.bucket_offset) as int / 4) as nat
        == t.buckets.len());
}

impl FlagTable {
    /// Serializes the table: header, bucket region, node region.
    pub fn into_bytes(&self) -> (r: Vec<u8>)
        requires
            str_bytes_wf(self@.header.container),
            forall|i: int|
                0 <= i < self@.nodes.len() ==> str_bytes_wf((#[trigger] self@.nodes[i]).flag_name),
        ensures
            r@ == self@.spec_bytes(),
    {
        let mut result: Vec<u8> = Vec::new();
        push_u32_le(&mut result, self.header.version);
        push_str_bytes(&mut result, self.header.container.as_str());
        push_u8(&mut result, self.header.file_type);
        push_u32_le(&mut result, self.header.file_size);
        push_u32_le(&mut result, self.header.num_flags);
        push_u32_le(&mut result, self.header.bucket_offset);
        push_u32_le(&mut result, self.header.node_offset);
        proof {
            assert(result@ =~= self@.header.spec_bytes());
        }
        let nb = self.buckets.len();
        let mut i: usize = 0;
        while i < nb
            invariant
                i <= nb,
                nb == self.buckets@.len(),
                result@ == self@.header.spec_bytes() + spec_slots_bytes(
                    self.buckets@.subrange(0, i as int),
                ),
            decreases nb - i,
        {
            push_u32_le(&mut result, match self.buckets[i] {
                Some(o) => o,
                None => 0,
            });
            i = i + 1;
            proof {
                assert(self.buckets@.subrange(0, i as int).drop_last() =~= self.buckets@.subrange(
                    0,
                    i as int - 1,
                ));
                assert(result@ =~= self@.header.spec_bytes() + spec_slots_bytes(
                    self.buckets@.subrange(0, i as int),
                ));
            }
        }
        proof {
            assert(self.buckets@.subrange(0, nb as int) =~= self.buckets@);
        }
        let nn = self.nodes.len();
        let mut j: usize = 0;
        while j < nn
            invariant
                j <= nn,
                nn == self.nodes@.len(),
                forall|k: int|
                    0 <= k < self@.nodes.len() ==> str_bytes_wf(
                        (#[trigger] self@.nodes[k]).flag_name,
                    ),
                result@ == self@.header.spec_bytes() + spec_slots_bytes(self@.buckets)
                    + spec_flag_nodes_bytes(self@.nodes.subrange(0, j as int)),
            decreases nn - j,
        {
            proof {
                assert(self.nodes@[j as int]@ == self@.nodes[j as int]);
            }
            push_u32_le(&mut result, self.nodes[j].package_id);
            push_str_bytes(&mut result, self.nodes[j].flag_name.as_str());
            push_u16_le(&mut result, self.nodes[j].flag_type);
            push_u16_le(&mut result, self.nodes[j].flag_index);
            push_u32_le(&mut result, match self.nodes[j].next_offset {
                Some(o) => o,
                None => 0,
            });
            j = j + 1;
            proof {
                assert(self@.nodes.subrange(0, j as int).drop_last() =~= self@.nodes.subrange(
                    0,
                    j as int - 1,
                ));
                assert(result@ =~= self@.header.spec_bytes() + spec_slots_bytes(self@.buckets)
                    + spec_flag_nodes_bytes(self@.nodes.subrange(0, j as int)));
            }
        }
        proof {
            assert(self@.nodes.subrange(0, nn as int) =~= self@.nodes);
            assert(result@ =~= self@.spec_bytes());
        }
        result
    }

    /// Decodes a flag map file. Succeeds exactly when the spec-level
    /// reader does, and then returns exactly what it reads.
    pub fn from_bytes(bytes: &[u8]) -> (r: Result<FlagTable, AconfigStorageError>)
        ensures
            match FlagTableSpec::spec_from_bytes(bytes@) {
                Some(t) => r matches Ok(v) && v@ == t,
                None => r == Err::<FlagTable, AconfigStorageError>(
                    AconfigStorageError::BytesParseFail,
                ),
            },
    {
        let mut head: usize = 0;
        let version = match read_u32_from_bytes(bytes, &mut head) {
            Ok(v) => v,
            Err(e) => {
                return Err(e);
            },
        };
        let container = match read_str_from_bytes(bytes, &mut head) {
            Ok(v) => v,
            Err(e) => {
                return Err(e);
            },
        };
        let file_type = match read_u8_from_bytes(bytes, &mut head) {
            Ok(v) => v,
            Err(e) => {
                return Err(e);
            },
        };
        let file_size = match read_u32_from_bytes(bytes, &mut head) {
            Ok(v) => v,
            Err(e) => {
                return Err(e);
            },
        };
        let num_flags = match read_u32_from_bytes(bytes, &mut head) {
            Ok(v) => v,
            Err(e) => {
                return Err(e);
            },
        };
        let bucket_offset = match read_u32_from_bytes(bytes, &mut head) {
            Ok(v) => v,
            Err(e) => {
                return Err(e);
            },
        };
        let node_offset = match read_u32_from_bytes(bytes, &mut head) {
            Ok(v) => v,
            Err(e) => {
                return Err(e);
            },
        };
        let header = FlagTableHeader {
            version,
            container,
            file_type,
            file_size,
            num_flags,
            bucket_offset,
            node_offset,
        };
        let ghost header_end: int = head as int;
        proof {
            assert(FlagTableHeaderSpec::spec_read(bytes@, 0) == Some((header@, header_end)));
        }
        if node_offset < bucket_offset {
            return Err(AconfigStorageError::BytesParseFail);
        }
        let num_buckets: u32 = (node_offset - bucket_offset) / 4;
        let mut buckets: Vec<Option<u32>> = Vec::new();
        let mut i: u32 = 0;
        while i < num_buckets
            invariant
                i <= num_buckets,
                FlagTableHeaderSpec::spec_read(bytes@, 0) == Some((header@, header_end)),
                header@.node_offset >= header@.bucket_offset,
                num_buckets == (header@.node_offset - header@.bucket_offset) as int / 4,
                spec_read_slots(bytes@, header_end, i as nat) == Some((buckets@, head as int)),
            decreases num_buckets - i,
        {
            let raw = match read_u32_from_bytes(bytes, &mut head) {
                Ok(v) => v,
                Err(e) => {
                    proof {
                        lemma_read_slots_fail(bytes@, header_end, i as nat, num_buckets as nat);
                    }
                    return Err(e);
                },
            };
            buckets.push(if raw == 0 {
                None
            } else {
                Some(raw)
            });
            i = i + 1;
        }
        let ghost slots_end: int = head as int;
        let mut nodes: Vec<FlagTableNode> = Vec::new();
        let mut k: u32 = 0;
        while k < num_flags
            invariant
                k <= num_flags,
                FlagTableHeaderSpec::spec_read(bytes@, 0) == Some((header@, header_end)),
                header@.node_offset >= header@.bucket_offset,
                num_buckets == (header@.node_offset - header@.bucket_offset) as int / 4,
                header@.num_flags == num_flags,
                spec_read_slots(bytes@, header_end, num_buckets as nat) == Some(
                    (buckets@, slots_end),
                ),
                spec_read_flag_nodes(bytes@, slots_end, k as nat) == Some(
                    (nodes@.map_values(|n: FlagTableNode| n@), head as int),
                ),
            decreases num_flags - k,
        {
            let node = match Self::read_node(bytes, &mut head) {
                Ok(n) => n,
                Err(e) => {
                    proof {
                        lemma_read_flag_nodes_fail(bytes@, slots_end, k as nat, num_flags as nat);
                    }
                    return Err(e);
                },
            };
            let ghost nodes_pre = nodes@.map_values(|n: FlagTableNode| n@);
            nodes.push(node);
            proof {
                assert(nodes@.map_values(|n: FlagTableNode| n@) =~= nodes_pre.push(node@));
            }
            k = k + 1;
        }
        Ok(FlagTable { header, buckets, nodes })
    }

    /// Decodes one node at the cursor.
    fn read_node(bytes: &[u8], head: &mut usize) -> (r: Result<
        FlagTableNode,
        AconfigStorageError,
    >)
        ensures
            match FlagTableNodeSpec::spec_read(bytes@, *old(head) as int) {
                Some(np) => r matches Ok(n) && n@ == np.0 && *final(head) == np.1,
                None => r == Err::<FlagTableNode, AconfigStorageError>(
                    AconfigStorageError::BytesParseFail,
                ) && *final(head) == *old(head),
            },
    {
        let saved: usize = *head;
        let package_id = match read_u32_from_bytes(bytes, head) {
            Ok(v) => v,
            Err(e) => {
                return Err(e);
            },
        };
        let flag_name = match read_str_from_bytes(bytes, head) {
            Ok(v) => v,
            Err(e) => {
                *head = saved;
                return Err(e);
            },
        };
        let flag_type = match read_u16_from_bytes(bytes, head) {
            Ok(v) => v,
            Err(e) => {
                *head = saved;
                return Err(e);
            },
        };
        let flag_index = match read_u16_from_bytes(bytes, head) {
            Ok(v) => v,
            Err(e) => {
                *head = saved;
                return Err(e);
            },
        };
        let next_raw = match read_u32_from_bytes(bytes, head) {
            Ok(v) => v,
            Err(e) => {
                *head = saved;
                return Err(e);
            },
        };
        Ok(
            FlagTableNode {
                package_id,
                flag_name,
                flag_type,
                flag_index,
                next_offset: if next_raw == 0 {
                    None
                } else {
                    Some(next_raw)
                },
            },
        )
    }
}

} // verus!
