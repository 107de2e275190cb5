//! The package map storage file: the on-disk package table read back at
//! runtime. Bucket slots and chain links are absolute byte offsets, with
//! 0 standing for none; version 1 files lack the per-node fingerprint,
//! version 2 files carry it.

use vstd::prelude::*;
use vstd::bytes::{spec_u32_to_le_bytes, spec_u64_to_le_bytes};
use crate::bytes::{
    spec_read_u8, spec_read_u32, spec_read_u64, spec_read_str, spec_str_bytes, str_bytes_wf,
    read_u8_from_bytes, read_u32_from_bytes, read_u64_from_bytes, read_str_from_bytes, push_u8,
    push_u32_le, push_u64_le, push_str_bytes, lemma_subrange_of_matching,
    lemma_read_u8_of_encoding, lemma_read_u32_of_encoding, lemma_read_u64_of_encoding,
    lemma_read_str_of_encoding, lemma_u32_le_len, lemma_u64_le_len, lemma_str_bytes_len,
    lemma_encode_utf8_len_bound,
};
use crate::AconfigStorageError;

verus! {

/// Mathematical model of a package map header.
pub ghost struct PackageTableHeaderSpec {
    pub version: u32,
    pub container: Seq<char>,
    pub file_type: u8,
    pub file_size: u32,
    pub num_packages: u32,
    pub bucket_offset: u32,
    pub node_offset: u32,
}

/// Header of a package map file.
#[derive(Debug, PartialEq, Eq)]
pub struct PackageTableHeader {
    pub version: u32,
    pub container: String,
    pub file_type: u8,
    pub file_size: u32,
    pub num_packages: u32,
    pub bucket_offset: u32,
    pub node_offset: u32,
}

impl View for PackageTableHeader {
    type V = PackageTableHeaderSpec;

    open spec fn view(&self) -> PackageTableHeaderSpec {
        PackageTableHeaderSpec {
            version: self.version,
            container: self.container@,
            file_type: self.file_type,
            file_size: self.file_size,
            num_packages: self.num_packages,
            bucket_offset: self.bucket_offset,
            node_offset: self.node_offset,
        }
    }
}

impl PackageTableHeaderSpec {
    pub open spec fn spec_bytes(self) -> Seq<u8> {
        spec_u32_to_le_bytes(self.version) + spec_str_bytes(self.container) + seq![self.file_type]
            + spec_u32_to_le_bytes(self.file_size) + spec_u32_to_le_bytes(self.num_packages)
            + spec_u32_to_le_bytes(self.bucket_offset) + spec_u32_to_le_bytes(self.node_offset)
    }

    pub open spec fn spec_read(buf: Seq<u8>, pos: int) -> Option<(PackageTableHeaderSpec, int)> {
        match spec_read_u32(buf, pos) {
            None => None,
            Some((version, p1)) => match spec_read_str(buf, p1) {
                None => None,
                Some((container, p2)) => match spec_read_u8(buf, p2) {
                    None => None,
                    Some((file_type, p3)) => match spec_read_u32(buf, p3) {
                        None => None,
                        Some((file_size, p4)) => match spec_read_u32(buf, p4) {
                            None => None,
                            Some((num_packages, p5)) => match spec_read_u32(buf, p5) {
                                None => None,
                                Some((bucket_offset, p6)) => match spec_read_u32(buf, p6) {
                                    None => None,
                                    Some((node_offset, p7)) => Some(
                                        (
                                            PackageTableHeaderSpec {
                                                version,
                                                container,
                                                file_type,
                                                file_size,
                                                num_packages,
                                                bucket_offset,
                                                node_offset,
                                            },
                                            p7,
                                        ),
                                    ),
                                },
                            },
                        },
                    },
                },
            },
        }
    }
}

/// Reading a serialized package map header back recovers it.
pub proof fn lemma_package_map_header_read_of_encoding(
    buf: Seq<u8>,
    pos: int,
    h: PackageTableHeaderSpec,
)
    requires
        0 <= pos,
        str_bytes_wf(h.container),
        pos + h.spec_bytes().len() <= buf.len(),
        buf.subrange(pos, pos + h.spec_bytes().len()) == h.spec_bytes(),
    ensures
        PackageTableHeaderSpec::spec_read(buf, pos) == Some((h, pos + h.spec_bytes().len())),
{
    let full = h.spec_bytes();
    let sb = spec_str_bytes(h.container);
    lemma_u32_le_len(h.version);
    lemma_u32_le_len(h.file_size);
    lemma_u32_le_len(h.num_packages);
    lemma_u32_le_len(h.bucket_offset);
    lemma_u32_le_len(h.node_offset);
    lemma_str_bytes_len(h.container);
    let o1: int = 4;
    let o2: int = o1 + sb.len();
    let o3: int = o2 + 1;
    let o4: int = o3 + 4;
    let o5: int = o4 + 4;
    let o6: int = o5 + 4;
    let o7: int = o6 + 4;
    assert(full.len() == o7);
    lemma_subrange_of_matching(buf, pos, full, 0, o1);
    assert(full.subrange(0, o1) =~= spec_u32_to_le_bytes(h.version));
    lemma_read_u32_of_encoding(buf, pos, h.version);
    lemma_subrange_of_matching(buf, pos, full, o1, o2);
    assert(full.subrange(o1, o2) =~= sb);
    lemma_read_str_of_encoding(buf, pos + o1, h.container);
    lemma_subrange_of_matching(buf, pos, full, o2, o3);
    assert(full.subrange(o2, o3) =~= seq![h.file_type]);
    lemma_read_u8_of_encoding(buf, pos + o2, h.file_type);
    lemma_subrange_of_matching(buf, pos, full, o3, o4);
    assert(full.subrange(o3, o4) =~= spec_u32_to_le_bytes(h.file_size));
    lemma_read_u32_of_encoding(buf, pos + o3, h.file_size);
    lemma_subrange_of_matching(buf, pos, full, o4, o5);
    assert(full.subrange(o4, o5) =~= spec_u32_to_le_bytes(h.num_packages));
    lemma_read_u32_of_encoding(buf, pos + o4, h.num_packages);
    lemma_subrange_of_matching(buf, pos, full, o5, o6);
    assert(full.subrange(o5, o6) =~= spec_u32_to_le_bytes(h.bucket_offset));
    lemma_read_u32_of_encoding(buf, pos + o5, h.bucket_offset);
    lemma_subrange_of_matching(buf, pos, full, o6, o7);
    assert(full.subrange(o6, o7) =~= spec_u32_to_le_bytes(h.node_offset));
    lemma_read_u32_of_encoding(buf, pos + o6, h.node_offset);
}

/// Mathematical model of a package map node.
pub ghost struct PackageTableNodeSpec {
    pub package_name: Seq<char>,
    pub package_id: u32,
    pub fingerprint: u64,
    pub boolean_start_index: u32,
    pub next_offset: Option<u32>,
}

/// One package entry of a package map file.
#[derive(Debug, PartialEq, Eq)]
pub struct PackageTableNode {
    pub package_name: String,
    pub package_id: u32,
    pub fingerprint: u64,
    pub boolean_start_index: u32,
    pub next_offset: Option<u32>,
}

impl View for PackageTableNode {
    type V = PackageTableNodeSpec;

    open spec fn view(&self) -> PackageTableNodeSpec {
        PackageTableNodeSpec {
            package_name: self.package_name@,
            package_id: self.package_id,
            fingerprint: self.fingerprint,
            boolean_start_index: self.boolean_start_index,
            next_offset: self.next_offset,
        }
    }
}

impl PackageTableNodeSpec {
    /// A node's bytes: the fingerprint is present only from format
    /// version 2 on; writers targeting version 1 never emit it.
    pub open spec fn spec_bytes(self, version: u32) -> Seq<u8> {
        spec_str_bytes(self.package_name) + spec_u32_to_le_bytes(self.package_id) + (if version
            >= 2 {
            spec_u64_to_le_bytes(self.fingerprint)
        } else {
            Seq::empty()
        }) + spec_u32_to_le_bytes(self.boolean_start_index) + spec_u32_to_le_bytes(
            match self.next_offset {
                Some(o) => o,
                None => 0,
            },
        )
    }

    pub open spec fn wf(self, version: u32) -> bool {
        &&& str_bytes_wf(self.package_name)
        &&& self.next_offset != Some(0u32)
        &&& version < 2 ==> self.fingerprint == 0
    }

    pub open spec fn spec_read(buf: Seq<u8>, pos: int, version: u32) -> Option<
        (PackageTableNodeSpec, int),
    > {
        match spec_read_str(buf, pos) {
            None => None,
            Some((package_name, p1)) => match spec_read_u32(buf, p1) {
                None => None,
                Some((package_id, p2)) => {
                    let fp = if version >= 2 {
                        spec_read_u64(buf, p2)
                    } else {
                        Some((0u64, p2))
                    };
                    match fp {
                        None => None,
                        Some((fingerprint, p3)) => match spec_read_u32(buf, p3) {
                            None => None,
                            Some((boolean_start_index, p4)) => match spec_read_u32(buf, p4) {
                                None => None,
                                Some((next_raw, p5)) => Some(
                                    (
                                        PackageTableNodeSpec {
                                            package_name,
                                            package_id,
                                            fingerprint,
                                            boolean_start_index,
                                            next_offset: if next_raw == 0 {
                                                None
                                            } else {
                                                Some(next_raw)
                                            },
                                        },
                                        p5,
                                    ),
                                ),
                            },
                        },
                    }
                },
            },
        }
    }
}

/// Reading a serialized node back recovers it.
pub proof fn lemma_package_map_node_read_of_encoding(
    buf: Seq<u8>,
    pos: int,
    n: PackageTableNodeSpec,
    version: u32,
)
    requires
        0 <= pos,
        n.wf(version),
        pos + n.spec_bytes(version).len() <= buf.len(),
        buf.subrange(pos, pos + n.spec_bytes(version).len()) == n.spec_bytes(version),
    ensures
        PackageTableNodeSpec::spec_read(buf, pos, version) == Some(
            (n, pos + n.spec_bytes(version).len()),
        ),
{
    let full = n.spec_bytes(version);
    let sb = spec_str_bytes(n.package_name);
    let next_raw: u32 = match n.next_offset {
        Some(o) => o,
        None => 0,
    };
    lemma_u32_le_len(n.package_id);
    lemma_u32_le_len(n.boolean_start_index);
    lemma_u32_le_len(next_raw);
    lemma_u64_le_len(n.fingerprint);
    lemma_str_bytes_len(n.package_name);
    let fplen: int = if version >= 2 {
        8
    } else {
        0
    };
    let o1: int = sb.len() as int;
    let o2: int = o1 + 4;
    let o3: int = o2 + fplen;
    let o4: int = o3 + 4;
    let o5: int = o4 + 4;
    assert(full.len() == o5);
    lemma_subrange_of_matching(buf, pos, full, 0, o1);
    assert(full.subrange(0, o1) =~= sb);
    lemma_read_str_of_encoding(buf, pos, n.package_name);
    lemma_subrange_of_matching(buf, pos, full, o1, o2);
    assert(full.subrange(o1, o2) =~= spec_u32_to_le_bytes(n.package_id));
    lemma_read_u32_of_encoding(buf, pos + o1, n.package_id);
    if version >= 2 {
        lemma_subrange_of_matching(buf, pos, full, o2, o3);
        assert(full.subrange(o2, o3) =~= spec_u64_to_le_bytes(n.fingerprint));
        lemma_read_u64_of_encoding(buf, pos + o2, n.fingerprint);
    }
    lemma_subrange_of_matching(buf, pos, full, o3, o4);
    assert(full.subrange(o3, o4) =~= spec_u32_to_le_bytes(n.boolean_start_index));
    lemma_read_u32_of_encoding(buf, pos + o3, n.boolean_start_index);
    lemma_subrange_of_matching(buf, pos, full, o4, o5);
    assert(full.subrange(o4, o5) =~= spec_u32_to_le_bytes(next_raw));
    lemma_read_u32_of_encoding(buf, pos + o4, next_raw);
}

// ---------------------------------------------------------------------------
// Bucket slots.
// ---------------------------------------------------------------------------

/// Bucket slots serialized as u32 absolute offsets, 0 for an empty slot.
pub open spec fn spec_slots_bytes(slots: Seq<Option<u32>>) -> Seq<u8>
    decreases slots.len(),
{
    if slots.len() == 0 {
        Seq::empty()
    } else {
        spec_slots_bytes(slots.drop_last()) + spec_u32_to_le_bytes(
            match slots.last() {
                Some(o) => o,
                None => 0,
            },
        )
    }
}

/// Reads `count` bucket slots, mapping a stored 0 back to none.
pub open spec fn spec_read_slots(buf: Seq<u8>, pos: int, count: nat) -> Option<
    (Seq<Option<u32>>, int),
>
    decreases count,
{
    if count == 0 {
        Some((Seq::empty(), pos))
    } else {
        match spec_read_slots(buf, pos, (count - 1) as nat) {
            None => None,
            Some((s, p)) => match spec_read_u32(buf, p) {
                None => None,
                Some((v, q)) => Some(
                    (
                        s.push(
                            if v == 0 {
                                None
                            } else {
                                Some(v)
                            },
                        ),
                        q,
                    ),
                ),
            },
        }
    }
}

pub proof fn lemma_read_slots_fail(buf: Seq<u8>, pos: int, i: nat, count: nat)
    requires
        i < count,
        spec_read_slots(buf, pos, i) matches Some(sp) && spec_read_u32(buf, sp.1) is None,
    ensures
        spec_read_slots(buf, pos, count) is None,
    decreases count,
{
    if count - 1 > i {
        lemma_read_slots_fail(buf, pos, i, (count - 1) as nat);
    }
}

/// Reading back encoded slots recovers them, when no filled slot stores 0.
pub proof fn lemma_read_slots_of_encoding(buf: Seq<u8>, pos: int, slots: Seq<Option<u32>>)
    requires
        0 <= pos,
        pos + spec_slots_bytes(slots).len() <= buf.len(),
        buf.subrange(pos, pos + spec_slots_bytes(slots).len()) == spec_slots_bytes(slots),
        forall|b: int| 0 <= b < slots.len() ==> #[trigger] slots[b] != Some(0u32),
    ensures
        spec_read_slots(buf, pos, slots.len()) == Some(
            (slots, pos + spec_slots_bytes(slots).len()),
        ),
    decreases slots.len(),
{
    if slots.len() > 0 {
        let pre = slots.drop_last();
        let raw: u32 = match slots.last() {
            Some(o) => o,
            None => 0,
        };
        lemma_u32_le_len(raw);
        let prelen = spec_slots_bytes(pre).len() as int;
        lemma_subrange_of_matching(buf, pos, spec_slots_bytes(slots), 0, prelen);
        assert(spec_slots_bytes(slots).subrange(0, prelen) =~= spec_slots_bytes(pre));
        assert(forall|b: int| 0 <= b < pre.len() ==> #[trigger] pre[b] != Some(0u32));
        lemma_read_slots_of_encoding(buf, pos, pre);
        lemma_subrange_of_matching(
            buf,
            pos,
            spec_slots_bytes(slots),
            prelen,
            prelen + 4,
        );
        assert(spec_slots_bytes(slots).subrange(prelen, prelen + 4) =~= spec_u32_to_le_bytes(raw));
        lemma_read_u32_of_encoding(buf, pos + prelen, raw);
        assert(pre.push(
            if raw == 0 {
                None
            } else {
                Some(raw)
            },
        ) =~= slots);
    }
}

// ---------------------------------------------------------------------------
// Node region.
// ---------------------------------------------------------------------------

pub open spec fn spec_nodes_bytes(nodes: Seq<PackageTableNodeSpec>, version: u32) -> Seq<u8>
    decreases nodes.len(),
{
    if nodes.len() == 0 {
        Seq::empty()
    } else {
        spec_nodes_bytes(nodes.drop_last(), version) + nodes.last().spec_bytes(version)
    }
}

pub open spec fn spec_read_nodes(buf: Seq<u8>, pos: int, count: nat, version: u32) -> Option<
    (Seq<PackageTableNodeSpec>, int),
>
    decreases count,
{
    if count == 0 {
        Some((Seq::empty(), pos))
    } else {
        match spec_read_nodes(buf, pos, (count - 1) as nat, version) {
            None => None,
            Some((s, p)) => match PackageTableNodeSpec::spec_read(buf, p, version) {
                None => None,
                Some((n, q)) => Some((s.push(n), q)),
            },
        }
    }
}

pub proof fn lemma_read_nodes_fail(buf: Seq<u8>, pos: int, i: nat, count: nat, version: u32)
    requires
        i < count,
        spec_read_nodes(buf, pos, i, version) matches Some(sp)
            && PackageTableNodeSpec::spec_read(buf, sp.1, version) is None,
    ensures
        spec_read_nodes(buf, pos, count, version) is None,
    decreases count,
{
    if count - 1 > i {
        lemma_read_nodes_fail(buf, pos, i, (count - 1) as nat, version);
    }
}

/// Reading back an encoded node region recovers it.
pub proof fn lemma_read_nodes_of_encoding(
    buf: Seq<u8>,
    pos: int,
    nodes: Seq<PackageTableNodeSpec>,
    version: u32,
)
    requires
        0 <= pos,
        pos + spec_nodes_bytes(nodes, version).len() <= buf.len(),
        buf.subrange(pos, pos + spec_nodes_bytes(nodes, version).len()) == spec_nodes_bytes(
            nodes,
            version,
        ),
        forall|i: int| 0 <= i < nodes.len() ==> (#[trigger] nodes[i]).wf(version),
    ensures
        spec_read_nodes(buf, pos, nodes.len(), version) == Some(
            (nodes, pos + spec_nodes_bytes(nodes, version).len()),
        ),
    decreases nodes.len(),
{
    if nodes.len() > 0 {
        let pre = nodes.drop_last();
        let last = nodes.last();
        let prelen = spec_nodes_bytes(pre, version).len() as int;
        lemma_subrange_of_matching(buf, pos, spec_nodes_bytes(nodes, version), 0, prelen);
        assert(spec_nodes_bytes(nodes, version).subrange(0, prelen) =~= spec_nodes_bytes(
            pre,
            version,
        ));
        assert(forall|i: int| 0 <= i < pre.len() ==> (#[trigger] pre[i]).wf(version));
        lemma_read_nodes_of_encoding(buf, pos, pre, version);
        lemma_subrange_of_matching(
            buf,
            pos,
            spec_nodes_bytes(nodes, version),
            prelen,
            prelen + last.spec_bytes(version).len(),
        );
        assert(spec_nodes_bytes(nodes, version).subrange(
            prelen,
            prelen + last.spec_bytes(version).len(),
        ) =~= last.spec_bytes(version));
        lemma_package_map_node_read_of_encoding(buf, pos + prelen, last, version);
        assert(pre.push(last) =~= nodes);
    }
}

// ---------------------------------------------------------------------------
// The whole file.
// ---------------------------------------------------------------------------

/// Mathematical model of a package map file.
pub ghost struct PackageTableSpec {
    pub header: PackageTableHeaderSpec,
    pub buckets: Seq<Option<u32>>,
    pub nodes: Seq<PackageTableNodeSpec>,
}

/// A decoded package map file.
#[derive(Debug, PartialEq, Eq)]
pub struct PackageTable {
    pub header: PackageTableHeader,
    pub buckets: Vec<Option<u32>>,
    pub nodes: Vec<PackageTableNode>,
}

impl View for PackageTable {
    type V = PackageTableSpec;

    open spec fn view(&self) -> PackageTableSpec {
        PackageTableSpec {
            header: self.header@,
            buckets: self.buckets@,
            nodes: self.nodes@.map_values(|n: PackageTableNode| n@),
        }
    }
}

impl PackageTableSpec {
    pub open spec fn spec_bytes(self) -> Seq<u8> {
        self.header.spec_bytes() + spec_slots_bytes(self.buckets) + spec_nodes_bytes(
            self.nodes,
            self.header.version,
        )
    }

    /// The internal consistency that serialization relies on: the region
    /// offsets in the header describe the actual layout, the node count
    /// matches, and no offset abuses the 0-means-none convention.
    pub open spec fn wf(self) -> bool {
        &&& str_bytes_wf(self.header.container)
        &&& self.header.bucket_offset == self.header.spec_bytes().len()
        &&& self.header.node_offset == self.header.bucket_offset + 4 * self.buckets.len()
        &&& self.header.num_packages == self.nodes.len()
        &&& forall|i: int|
            0 <= i < self.nodes.len() ==> (#[trigger] self.nodes[i]).wf(self.header.version)
        &&& forall|b: int| 0 <= b < self.buckets.len() ==> #[trigger] self.buckets[b] != Some(0u32)
    }

    /// Reads a whole package map file from the start of the buffer. The
    /// bucket count is derived from the header's region offsets.
    pub open spec fn spec_from_bytes(buf: Seq<u8>) -> Option<PackageTableSpec> {
        match PackageTableHeaderSpec::spec_read(buf, 0) {
            None => None,
            Some((h, p)) => {
                if h.node_offset < h.bucket_offset {
                    None
                } else {
                    let nbuck = ((h.node_offset - h.bucket_offset) as int / 4) as nat;
                    match spec_read_slots(buf, p, nbuck) {
                        None => None,
                        Some((slots, p2)) => match spec_read_nodes(
                            buf,
                            p2,
                            h.num_packages as nat,
                            h.version,
                        ) {
                            None => None,
                            Some((nodes, _)) => Some(
                                PackageTableSpec { header: h, buckets: slots, nodes },
                            ),
                        },
                    }
                }
            },
        }
    }
}

/// Round trip: decoding a serialized package map recovers it field for
/// field.
pub proof fn lemma_package_map_round_trip(t: PackageTableSpec)
    requires
        t.wf(),
    ensures
        PackageTableSpec::spec_from_bytes(t.spec_bytes()) == Some(t),
{
    let buf = t.spec_bytes();
    let hb = t.header.spec_bytes();
    let sb = spec_slots_bytes(t.buckets);
    let nb = spec_nodes_bytes(t.nodes, t.header.version);
    assert(buf.subrange(0, hb.len() as int) =~= hb);
    lemma_package_map_header_read_of_encoding(buf, 0, t.header);
    lemma_slots_bytes_len(t.buckets);
    assert(buf.subrange(hb.len() as int, hb.len() as int + sb.len() as int) =~= sb);
    lemma_read_slots_of_encoding(buf, hb.len() as int, t.buckets);
    assert(buf.subrange(hb.len() as int + sb.len() as int, buf.len() as int) =~= nb);
    lemma_read_nodes_of_encoding(
        buf,
        hb.len() as int + sb.len() as int,
        t.nodes,
        t.header.version,
    );
    assert(((t.header.node_offset - t.header.bucket_offset) as int / 4) as nat
        == t.buckets.len());
}

pub proof fn lemma_slots_bytes_len(slots: Seq<Option<u32>>)
    ensures
        spec_slots_bytes(slots).len() == 4 * slots.len(),
    decreases slots.len(),
{
    if slots.len() > 0 {
        lemma_slots_bytes_len(slots.drop_last());
        lemma_u32_le_len(
            match slots.last() {
                Some(o) => o,
                None => 0,
            },
        );
    }
}

impl PackageTable {
    /// Serializes the table: header, bucket region, node region, with
    /// the fingerprint emitted only for version 2 and later.
    pub fn into_bytes(&self) -> (r: Vec<u8>)
        requires
            str_bytes_wf(self@.header.container),
            forall|i: int|
                0 <= i < self@.nodes.len() ==> str_bytes_wf(
                    (#[trigger] self@.nodes[i]).package_name,
                ),
        ensures
            r@ == self@.spec_bytes(),
    {
        let mut result: Vec<u8> = Vec::new();
        push_u32_le(&mut result, self.header.version);
        push_str_bytes(&mut result, self.header.container.as_str());
        push_u8(&mut result, self.header.file_type);
        push_u32_le(&mut result, self.header.file_size);
        push_u32_le(&mut result, self.header.num_packages);
        push_u32_le(&mut result, self.header.bucket_offset);
        push_u32_le(&mut result, self.header.node_offset);
        proof {
            assert(result@ =~= self@.header.spec_bytes());
        }
        let nb = self.buckets.len();
        let mut i: usize = 0;
        while i < nb
            invariant
                i <= nb,
                nb == self.buckets@.len(),
                result@ == self@.header.spec_bytes() + spec_slots_bytes(
                    self.buckets@.subrange(0, i as int),
                ),
            decreases nb - i,
        {
            push_u32_le(&mut result, match self.buckets[i] {
                Some(o) => o,
                None => 0,
            });
            i = i + 1;
            proof {
                assert(self.buckets@.subrange(0, i as int).drop_last() =~= self.buckets@.subrange(
                    0,
                    i as int - 1,
                ));
                assert(result@ =~= self@.header.spec_bytes() + spec_slots_bytes(
                    self.buckets@.subrange(0, i as int),
                ));
            }
        }
        proof {
            assert(self.buckets@.subrange(0, nb as int) =~= self.buckets@);
        }
        let nn = self.nodes.len();
        let mut j: usize = 0;
        while j < nn
            invariant
                j <= nn,
                nn == self.nodes@.len(),
                forall|k: int|
                    0 <= k < self@.nodes.len() ==> str_bytes_wf(
                        (#[trigger] self@.nodes[k]).package_name,
                    ),
                result@ == self@.header.spec_bytes() + spec_slots_bytes(self@.buckets)
                    + spec_nodes_bytes(self@.nodes.subrange(0, j as int), self@.header.version),
            decreases nn - j,
        {
            proof {
                assert(self.nodes@[j as int]@ == self@.nodes[j as int]);
            }
            push_str_bytes(&mut result, self.nodes[j].package_name.as_str());
            push_u32_le(&mut result, self.nodes[j].package_id);
            if self.header.version >= 2 {
                push_u64_le(&mut result, self.nodes[j].fingerprint);
            }
            push_u32_le(&mut result, self.nodes[j].boolean_start_index);
            push_u32_le(&mut result, match self.nodes[j].next_offset {
                Some(o) => o,
                None => 0,
            });
            j = j + 1;
            proof {
                assert(self@.nodes.subrange(0, j as int).drop_last() =~= self@.nodes.subrange(
                    0,
                    j as int - 1,
                ));
                assert(result@ =~= self@.header.spec_bytes() + spec_slots_bytes(self@.buckets)
                    + spec_nodes_bytes(self@.nodes.subrange(0, j as int), self@.header.version));
            }
        }
        proof {
            assert(self@.nodes.subrange(0, nn as int) =~= self@.nodes);
            assert(result@ =~= self@.spec_bytes());
        }
        result
    }

    /// Decodes a package map file. Succeeds exactly when the spec-level
    /// reader does, and then returns exactly what it reads; in
    /// particular, by the round-trip lemma, decoding a serialized
    /// well-formed table returns that table.
    pub fn from_bytes(bytes: &[u8]) -> (r: Result<PackageTable, AconfigStorageError>)
        ensures
            match PackageTableSpec::spec_from_bytes(bytes@) {
                Some(t) => r matches Ok(v) && v@ == t,
                None => r == Err::<PackageTable, AconfigStorageError>(
                    AconfigStorageError::BytesParseFail,
                ),
            },
    {
        let mut head: usize = 0;
        let version = match read_u32_from_bytes(bytes, &mut head) {
            Ok(v) => v,
            Err(e) => {
                return Err(e);
            },
        };
        let container = match read_str_from_bytes(bytes, &mut head) {
            Ok(v) => v,
            Err(e) => {
                return Err(e);
            },
        };
        let file_type = match read_u8_from_bytes(bytes, &mut head) {
            Ok(v) => v,
            Err(e) => {
                return Err(e);
            },
        };
        let file_size = match read_u32_from_bytes(bytes, &mut head) {
            Ok(v) => v,
            Err(e) => {
                return Err(e);
            },
        };
        let num_packages = match read_u32_from_bytes(bytes, &mut head) {
            Ok(v) => v,
            Err(e) => {
                return Err(e);
            },
        };
        let bucket_offset = match read_u32_from_bytes(bytes, &mut head) {
            Ok(v) => v,
            Err(e) => {
                return Err(e);
            },
        };
        let node_offset = match read_u32_from_bytes(bytes, &mut head) {
            Ok(v) => v,
            Err(e) => {
                return Err(e);
            },
        };
        let header = PackageTableHeader {
            version,
            container,
            file_type,
            file_size,
            num_packages,
            bucket_offset,
            node_offset,
        };
        let ghost header_end: int = head as int;
        proof {
            assert(PackageTableHeaderSpec::spec_read(bytes@, 0) == Some((header@, header_end)));
        }
        if node_offset < bucket_offset {
            return Err(AconfigStorageError::BytesParseFail);
        }
        let num_buckets: u32 = (node_offset - bucket_offset) / 4;
        let mut buckets: Vec<Option<u32>> = Vec::new();
        let mut i: u32 = 0;
        while i < num_buckets
            invariant
                i <= num_buckets,
                PackageTableHeaderSpec::spec_read(bytes@, 0) == Some((header@, header_end)),
                header@.node_offset >= header@.bucket_offset,
                num_buckets == (header@.node_offset - header@.bucket_offset) as int / 4,
                spec_read_slots(bytes@, header_end, i as nat) == Some((buckets@, head as int)),
            decreases num_buckets - i,
        {
            let raw = match read_u32_from_bytes(bytes, &mut head) {
                Ok(v) => v,
                Err(e) => {
                    proof {
                        lemma_read_slots_fail(bytes@, header_end, i as nat, num_buckets as nat);
                    }
                    return Err(e);
                },
            };
            buckets.push(if raw == 0 {
                None
            } else {
                Some(raw)
            });
            i = i + 1;
        }
        let ghost slots_end: int = head as int;
        let mut nodes: Vec<PackageTableNode> = Vec::new();
        let mut k: u32 = 0;
        while k < num_packages
            invariant
                k <= num_packages,
                PackageTableHeaderSpec::spec_read(bytes@, 0) == Some((header@, header_end)),
                header@.node_offset >= header@.bucket_offset,
                num_buckets == (header@.node_offset - header@.bucket_offset) as int / 4,
                header@.num_packages == num_packages,
                header@.version == version,
                spec_read_slots(bytes@, header_end, num_buckets as nat) == Some(
                    (buckets@, slots_end),
                ),
                spec_read_nodes(bytes@, slots_end, k as nat, version) == Some(
                    (nodes@.map_values(|n: PackageTableNode| n@), head as int),
                ),
            decreases num_packages - k,
        {
            let ghost node_start: int = head as int;
            let node = match Self::read_node(bytes, &mut head, version) {
                Ok(n) => n,
                Err(e) => {
                    proof {
                        lemma_read_nodes_fail(
                            bytes@,
                            slots_end,
                            k as nat,
                            num_packages as nat,
                            version,
                        );
                    }
                    return Err(e);
                },
            };
            let ghost nodes_pre = nodes@.map_values(|n: PackageTableNode| n@);
            nodes.push(node);
            proof {
                assert(nodes@.map_values(|n: PackageTableNode| n@) =~= nodes_pre.push(node@));
            }
            k = k + 1;
        }
        Ok(PackageTable { header, buckets, nodes })
    }

    /// Decodes one node at the cursor.
    fn read_node(bytes: &[u8], head: &mut usize, version: u32) -> (r: Result<
        PackageTableNode,
        AconfigStorageError,
    >)
        ensures
            match PackageTableNodeSpec::spec_read(bytes@, *old(head) as int, version) {
                Some(np) => r matches Ok(n) && n@ == np.0 && *final(head) == np.1,
                None => r == Err::<PackageTableNode, AconfigStorageError>(
                    AconfigStorageError::BytesParseFail,
                ) && *final(head) == *old(head),
            },
    {
        let saved: usize = *head;
        let package_name = match read_str_from_bytes(bytes, head) {
            Ok(v) => v,
            Err(e) => {
                return Err(e);
            },
        };
        let package_id = match read_u32_from_bytes(bytes, head) {
            Ok(v) => v,
            Err(e) => {
                *head = saved;
                return Err(e);
            },
        };
        let fingerprint: u64 = if version >= 2 {
            match read_u64_from_bytes(bytes, head) {
                Ok(v) => v,
                Err(e) => {
                    *head = saved;
                    return Err(e);
                },
            }
        } else {
            0
        };
        let boolean_start_index = match read_u32_from_bytes(bytes, head) {
            Ok(v) => v,
            Err(e) => {
                *head = saved;
                return Err(e);
            },
        };
        let next_raw = match read_u32_from_bytes(bytes, head) {
            Ok(v) => v,
            Err(e) => {
                *head = saved;
                return Err(e);
            },
        };
        Ok(
            PackageTableNode {
                package_name,
                package_id,
                fingerprint,
                boolean_start_index,
                next_offset: if next_raw == 0 {
                    None
                } else {
                    Some(next_raw)
                },
            },
        )
    }
}

// ---------------------------------------------------------------------------
// Version fixtures.
// ---------------------------------------------------------------------------

/// The model of the version 1 example table used to pin down version
/// handling.
pub open spec fn spec_test_v1_package_table() -> PackageTableSpec {
    PackageTableSpec {
        header: PackageTableHeaderSpec {
            version: 1,
            container: "mockup"@,
            file_type: 0,
            file_size: 209,
            num_packages: 3,
            bucket_offset: 31,
            node_offset: 59,
        },
        buckets: seq![
            Some(59u32),
            None,
            None,
            Some(109u32),
            None,
            None,
            None,
        ],
        nodes: seq![
            PackageTableNodeSpec {
                package_name: "com.android.aconfig.storage.test_2"@,
                package_id: 1,
                fingerprint: 0,
                boolean_start_index: 3,
                next_offset: None,
            },
            PackageTableNodeSpec {
                package_name: "com.android.aconfig.storage.test_1"@,
                package_id: 0,
                fingerprint: 0,
                boolean_start_index: 0,
                next_offset: Some(159u32),
            },
            PackageTableNodeSpec {
                package_name: "com.android.aconfig.storage.test_4"@,
                package_id: 2,
                fingerprint: 0,
                boolean_start_index: 6,
                next_offset: None,
            },
        ],
    }
}

/// A version 1 package table, as written before nodes carried a
/// fingerprint.
pub fn create_test_v1_package_table() -> (r: PackageTable)
    ensures
        r@ == spec_test_v1_package_table(),
{
    let header = PackageTableHeader {
        version: 1,
        container: String::from_str("mockup"),
        file_type: crate::StorageFileType::PackageMap.code(),
        file_size: 209,
        num_packages: 3,
        bucket_offset: 31,
        node_offset: 59,
    };
    let mut buckets: Vec<Option<u32>> = Vec::new();
    buckets.push(Some(59));
    buckets.push(None);
    buckets.push(None);
    buckets.push(Some(109));
    buckets.push(None);
    buckets.push(None);
    buckets.push(None);
    let first_node = PackageTableNode {
        package_name: String::from_str("com.android.aconfig.storage.test_2"),
        package_id: 1,
        fingerprint: 0,
        boolean_start_index: 3,
        next_offset: None,
    };
    let second_node = PackageTableNode {
        package_name: String::from_str("com.android.aconfig.storage.test_1"),
        package_id: 0,
        fingerprint: 0,
        boolean_start_index: 0,
        next_offset: Some(159),
    };
    let third_node = PackageTableNode {
        package_name: String::from_str("com.android.aconfig.storage.test_4"),
        package_id: 2,
        fingerprint: 0,
        boolean_start_index: 6,
        next_offset: None,
    };
    let mut nodes: Vec<PackageTableNode> = Vec::new();
    nodes.push(first_node);
    nodes.push(second_node);
    nodes.push(third_node);
    let r = PackageTable { header, buckets, nodes };
    proof {
        assert(r@.buckets =~= spec_test_v1_package_table().buckets);
        assert(r@.nodes =~= spec_test_v1_package_table().nodes);
    }
    r
}

/// The serialized form of the version 1 example table: no fingerprint
/// is emitted in any node.
pub fn create_test_v1_package_table_bytes() -> (r: Vec<u8>)
    ensures
        r@ == spec_test_v1_package_table().spec_bytes(),
{
    let package_table = create_test_v1_package_table();
    proof {
        reveal_strlit("mockup");
        reveal_strlit("com.android.aconfig.storage.test_2");
        reveal_strlit("com.android.aconfig.storage.test_1");
        reveal_strlit("com.android.aconfig.storage.test_4");
        lemma_encode_utf8_len_bound("mockup"@);
        lemma_encode_utf8_len_bound("com.android.aconfig.storage.test_2"@);
        lemma_encode_utf8_len_bound("com.android.aconfig.storage.test_1"@);
        lemma_encode_utf8_len_bound("com.android.aconfig.storage.test_4"@);
        assert forall|i: int| 0 <= i < package_table@.nodes.len() implies str_bytes_wf(
            (#[trigger] package_table@.nodes[i]).package_name,
        ) by {
            assert(spec_test_v1_package_table().nodes[i] == package_table@.nodes[i]);
        }
    }
    package_table.into_bytes()
}

} // verus!
