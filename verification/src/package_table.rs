//! Build-time package table: maps a package name to its numeric id and
//! the start of its boolean value range.
//!
//! Nodes are laid out grouped by bucket index, so the members of one
//! collision chain are contiguous; bucket slots and `next_offset` links
//! are absolute byte offsets into the file, with 0 standing for none.
//! The serialized table decodes in the package map codec.

use vstd::prelude::*;
use vstd::bytes::spec_u32_to_le_bytes;
use crate::bytes::{
    spec_str_bytes, str_bytes_wf, push_u8, push_u32_le, push_str_bytes, lemma_u32_le_len,
    lemma_str_bytes_len,
};
use crate::flags::{FlagPackage, FlagPackageSpec};
use crate::hashing::{get_bucket_index, get_table_size, spec_bucket_index, spec_table_size};
use crate::package_map::spec_slots_bytes;
use crate::AconfigStorageError;

verus! {

/// Format version written by this build-time table.
pub const FILE_VERSION: u32 = 1;

/// Mathematical model of a package table header.
pub ghost struct PackageTableHeaderSpec {
    pub version: u32,
    pub container: Seq<char>,
    pub file_type: u8,
    pub file_size: u32,
    pub num_packages: u32,
    pub bucket_offset: u32,
    pub node_offset: u32,
}

/// Header of a build-time package table.
#[derive(Debug, PartialEq, Eq)]
pub struct PackageTableHeader {
    pub version: u32,
    pub container: String,
    pub file_type: u8,
    pub file_size: u32,
    pub num_packages: u32,
    pub bucket_offset: u32,
    pub node_offset: u32,
}

impl View for PackageTableHeader {
    type V = PackageTableHeaderSpec;

    open spec fn view(&self) -> PackageTableHeaderSpec {
        PackageTableHeaderSpec {
            version: self.version,
            container: self.container@,
            file_type: self.file_type,
            file_size: self.file_size,
            num_packages: self.num_packages,
            bucket_offset: self.bucket_offset,
            node_offset: self.node_offset,
        }
    }
}

impl PackageTableHeaderSpec {
    pub open spec fn spec_bytes(self) -> Seq<u8> {
        spec_u32_to_le_bytes(self.version) + spec_str_bytes(self.container) + seq![self.file_type]
            + spec_u32_to_le_bytes(self.file_size) + spec_u32_to_le_bytes(self.num_packages)
            + spec_u32_to_le_bytes(self.bucket_offset) + spec_u32_to_le_bytes(self.node_offset)
    }
}

/// The encoded size of a header with this container name.
pub open spec fn spec_header_size(container: Seq<char>) -> int {
    25 + vstd::utf8::encode_utf8(container).len() as int
}

pub proof fn lemma_header_bytes_len(h: PackageTableHeaderSpec)
    ensures
        h.spec_bytes().len() == spec_header_size(h.container),
{
    lemma_u32_le_len(h.version);
    lemma_u32_le_len(h.file_size);
    lemma_u32_le_len(h.num_packages);
    lemma_u32_le_len(h.bucket_offset);
    lemma_u32_le_len(h.node_offset);
    lemma_str_bytes_len(h.container);
}

impl PackageTableHeader {
    /// A fresh header with the size fields still unset.
    pub fn new(container: &str, num_packages: u32) -> (r: PackageTableHeader)
        ensures
            r@ == (PackageTableHeaderSpec {
                version: FILE_VERSION,
                container: container@,
                file_type: crate::StorageFileType::PackageMap.spec_code(),
                file_size: 0,
                num_packages,
                bucket_offset: 0,
                node_offset: 0,
            }),
    {
        PackageTableHeader {
            version: FILE_VERSION,
            container: container.to_owned(),
            file_type: crate::StorageFileType::PackageMap.code(),
            file_size: 0,
            num_packages,
            bucket_offset: 0,
            node_offset: 0,
        }
    }

    /// Serializes the header.
    pub fn as_bytes(&self) -> (r: Vec<u8>)
        requires
            str_bytes_wf(self@.container),
        ensures
            r@ == self@.spec_bytes(),
    {
        let mut result: Vec<u8> = Vec::new();
        push_u32_le(&mut result, self.version);
        push_str_bytes(&mut result, self.container.as_str());
        push_u8(&mut result, self.file_type);
        push_u32_le(&mut result, self.file_size);
        push_u32_le(&mut result, self.num_packages);
        push_u32_le(&mut result, self.bucket_offset);
        push_u32_le(&mut result, self.node_offset);
        proof {
            assert(result@ =~= self@.spec_bytes());
        }
        result
    }
}

/// Mathematical model of a package table node.
pub ghost struct PackageTableNodeSpec {
    pub package_name: Seq<char>,
    pub package_id: u32,
    pub boolean_offset: u32,
    pub next_offset: Option<u32>,
    pub bucket_index: u32,
}

/// One package entry: key, id, start of its boolean range, and the
/// forward link of its collision chain (an absolute byte offset, none
/// at the chain's tail).
#[derive(Debug, PartialEq, Eq)]
pub struct PackageTableNode {
    pub package_name: String,
    pub package_id: u32,
    pub boolean_offset: u32,
    pub next_offset: Option<u32>,
    pub bucket_index: u32,
}

impl View for PackageTableNode {
    type V = PackageTableNodeSpec;

    open spec fn view(&self) -> PackageTableNodeSpec {
        PackageTableNodeSpec {
            package_name: self.package_name@,
            package_id: self.package_id,
            boolean_offset: self.boolean_offset,
            next_offset: self.next_offset,
            bucket_index: self.bucket_index,
        }
    }
}

impl PackageTableNodeSpec {
    /// The serialized node: name, id, boolean offset, then the next
    /// link with 0 standing for none. The bucket index is derived
    /// data and is not serialized.
    pub open spec fn spec_bytes(self) -> Seq<u8> {
        spec_str_bytes(self.package_name) + spec_u32_to_le_bytes(self.package_id)
            + spec_u32_to_le_bytes(self.boolean_offset) + spec_u32_to_le_bytes(
            match self.next_offset {
                Some(o) => o,
                None => 0,
            },
        )
    }

    pub open spec fn spec_size(self) -> int {
        spec_str_bytes(self.package_name).len() as int + 12
    }
}

pub proof fn lemma_node_bytes_len(n: PackageTableNodeSpec)
    ensures
        n.spec_bytes().len() == n.spec_size(),
{
    lemma_u32_le_len(n.package_id);
    lemma_u32_le_len(n.boolean_offset);
    lemma_u32_le_len(
        match n.next_offset {
            Some(o) => o,
            None => 0,
        },
    );
}

/// The node a package turns into, before chain links are assigned.
pub open spec fn spec_node_of(p: FlagPackageSpec, num_buckets: u32) -> PackageTableNodeSpec {
    PackageTableNodeSpec {
        package_name: p.package_name,
        package_id: p.package_id,
        boolean_offset: p.boolean_start_index,
        next_offset: None,
        bucket_index: spec_bucket_index(p.package_name, num_buckets),
    }
}

impl PackageTableNode {
    /// Builds the node for one package among `num_buckets` buckets.
    pub fn new(package: &FlagPackage, num_buckets: u32) -> (r: PackageTableNode)
        requires
            num_buckets > 0,
        ensures
            r@ == spec_node_of(package@, num_buckets),
    {
        let bucket_index = get_bucket_index(package.package_name.as_str(), num_buckets);
        PackageTableNode {
            package_name: package.package_name.clone(),
            package_id: package.package_id,
            boolean_offset: package.boolean_start_index,
            next_offset: None,
            bucket_index,
        }
    }

    /// Serializes the node.
    pub fn as_bytes(&self) -> (r: Vec<u8>)
        requires
            str_bytes_wf(self@.package_name),
        ensures
            r@ == self@.spec_bytes(),
    {
        let mut result: Vec<u8> = Vec::new();
        push_str_bytes(&mut result, self.package_name.as_str());
        push_u32_le(&mut result, self.package_id);
        push_u32_le(&mut result, self.boolean_offset);
        push_u32_le(&mut result, match self.next_offset {
            Some(o) => o,
            None => 0,
        });
        proof {
            assert(result@ =~= self@.spec_bytes());
        }
        result
    }
}

// ---------------------------------------------------------------------------
// Layout spec functions.
// ---------------------------------------------------------------------------

/// Total encoded size of a run of nodes.
pub open spec fn spec_nodes_size(s: Seq<PackageTableNodeSpec>) -> int
    decreases s.len(),
{
    if s.len() == 0 {
        0
    } else {
        spec_nodes_size(s.drop_last()) + s.last().spec_size()
    }
}

/// The nodes of one bucket, in their original order.
pub open spec fn spec_bucket_members(s: Seq<PackageTableNodeSpec>, b: int) -> Seq<
    PackageTableNodeSpec,
> {
    s.filter(|n: PackageTableNodeSpec| n.bucket_index == b)
}

/// The nodes of all buckets below `b`, in their original order.
pub open spec fn spec_members_below(s: Seq<PackageTableNodeSpec>, b: int) -> Seq<
    PackageTableNodeSpec,
> {
    s.filter(|n: PackageTableNodeSpec| n.bucket_index < b)
}

/// Nodes regrouped bucket by bucket, keeping input order inside one
/// bucket: the layout of a stable sort by bucket index.
pub open spec fn spec_nodes_by_bucket(s: Seq<PackageTableNodeSpec>, b: int) -> Seq<
    PackageTableNodeSpec,
>
    decreases b,
{
    if b <= 0 {
        Seq::empty()
    } else {
        spec_nodes_by_bucket(s, b - 1) + spec_bucket_members(s, b - 1)
    }
}

/// Fills in the chain links: a node whose successor shares its bucket
/// links to the successor's absolute byte offset (the node region
/// starts at `base`); all others end their chain.
pub open spec fn spec_link_nodes(s: Seq<PackageTableNodeSpec>, base: int) -> Seq<
    PackageTableNodeSpec,
> {
    Seq::new(
        s.len(),
        |i: int|
            PackageTableNodeSpec {
                next_offset: if i + 1 < s.len() && s[i + 1].bucket_index == s[i].bucket_index {
                    Some((base + spec_nodes_size(s.subrange(0, i + 1))) as u32)
                } else {
                    None
                },
                ..s[i]
            },
    )
}

/// The slot of bucket `b` after laying out the first `upto` nodes: the
/// absolute byte offset of the first node of that bucket, if one was
/// seen.
pub open spec fn spec_bucket_slot(s: Seq<PackageTableNodeSpec>, upto: int, b: int, base: int) -> Option<u32>
    decreases upto,
{
    if upto <= 0 {
        None
    } else if spec_bucket_slot(s, upto - 1, b, base) is Some {
        spec_bucket_slot(s, upto - 1, b, base)
    } else if s[upto - 1].bucket_index == b {
        Some((base + spec_nodes_size(s.subrange(0, upto - 1))) as u32)
    } else {
        None
    }
}

// ---------------------------------------------------------------------------
// Size lemmas.
// ---------------------------------------------------------------------------

pub proof fn lemma_nodes_size_concat(a: Seq<PackageTableNodeSpec>, b: Seq<PackageTableNodeSpec>)
    ensures
        spec_nodes_size(a + b) == spec_nodes_size(a) + spec_nodes_size(b),
    decreases b.len(),
{
    if b.len() == 0 {
        assert(a + b =~= a);
    } else {
        assert((a + b).drop_last() =~= a + b.drop_last());
        lemma_nodes_size_concat(a, b.drop_last());
    }
}

pub proof fn lemma_nodes_size_nonneg(s: Seq<PackageTableNodeSpec>)
    ensures
        spec_nodes_size(s) >= 0,
    decreases s.len(),
{
    if s.len() > 0 {
        lemma_nodes_size_nonneg(s.drop_last());
        lemma_str_bytes_len(s.last().package_name);
    }
}

/// A prefix never outweighs the whole run.
pub proof fn lemma_nodes_size_prefix(s: Seq<PackageTableNodeSpec>, i: int)
    requires
        0 <= i <= s.len(),
    ensures
        spec_nodes_size(s.subrange(0, i)) <= spec_nodes_size(s),
{
    assert(s =~= s.subrange(0, i) + s.subrange(i, s.len() as int));
    lemma_nodes_size_concat(s.subrange(0, i), s.subrange(i, s.len() as int));
    lemma_nodes_size_nonneg(s.subrange(i, s.len() as int));
}

/// Filtering splits a run's size between matches and the rest.
proof fn lemma_size_filter_le(s: Seq<PackageTableNodeSpec>, b: int)
    ensures
        spec_nodes_size(spec_members_below(s, b + 1)) == spec_nodes_size(spec_members_below(s, b))
            + spec_nodes_size(spec_bucket_members(s, b)),
    decreases s.len(),
{
    reveal(Seq::filter);
    if s.len() > 0 {
        let pre = s.drop_last();
        let x = s.last();
        lemma_size_filter_le(pre, b);
        if x.bucket_index < b {
            assert(spec_members_below(s, b + 1) == spec_members_below(pre, b + 1).push(x));
            assert(spec_members_below(s, b) == spec_members_below(pre, b).push(x));
            assert(spec_bucket_members(s, b) == spec_bucket_members(pre, b));
            lemma_nodes_size_push(spec_members_below(pre, b + 1), x);
            lemma_nodes_size_push(spec_members_below(pre, b), x);
        } else if x.bucket_index == b {
            assert(spec_members_below(s, b + 1) == spec_members_below(pre, b + 1).push(x));
            assert(spec_bucket_members(s, b) == spec_bucket_members(pre, b).push(x));
            assert(spec_members_below(s, b) == spec_members_below(pre, b));
            lemma_nodes_size_push(spec_members_below(pre, b + 1), x);
            lemma_nodes_size_push(spec_bucket_members(pre, b), x);
        } else {
            assert(spec_members_below(s, b + 1) == spec_members_below(pre, b + 1));
            assert(spec_members_below(s, b) == spec_members_below(pre, b));
            assert(spec_bucket_members(s, b) == spec_bucket_members(pre, b));
        }
    }
}

pub proof fn lemma_nodes_size_push(t: Seq<PackageTableNodeSpec>, x: PackageTableNodeSpec)
    ensures
        spec_nodes_size(t.push(x)) == spec_nodes_size(t) + x.spec_size(),
{
    assert(t.push(x).drop_last() =~= t);
    assert(t.push(x).last() == x);
}

/// The count analogue of the size split.
proof fn lemma_count_filter_le(s: Seq<PackageTableNodeSpec>, b: int)
    ensures
        spec_members_below(s, b + 1).len() == spec_members_below(s, b).len()
            + spec_bucket_members(s, b).len(),
    decreases s.len(),
{
    reveal(Seq::filter);
    if s.len() > 0 {
        let pre = s.drop_last();
        let x = s.last();
        lemma_count_filter_le(pre, b);
        if x.bucket_index < b {
            assert(spec_members_below(s, b + 1) == spec_members_below(pre, b + 1).push(x));
            assert(spec_members_below(s, b) == spec_members_below(pre, b).push(x));
            assert(spec_bucket_members(s, b) == spec_bucket_members(pre, b));
        } else if x.bucket_index == b {
            assert(spec_members_below(s, b + 1) == spec_members_below(pre, b + 1).push(x));
            assert(spec_bucket_members(s, b) == spec_bucket_members(pre, b).push(x));
            assert(spec_members_below(s, b) == spec_members_below(pre, b));
        } else {
            assert(spec_members_below(s, b + 1) == spec_members_below(pre, b + 1));
            assert(spec_members_below(s, b) == spec_members_below(pre, b));
            assert(spec_bucket_members(s, b) == spec_bucket_members(pre, b));
        }
    }
}

/// Grouping by buckets keeps the node count.
pub proof fn lemma_by_bucket_count(s: Seq<PackageTableNodeSpec>, b: int)
    requires
        b >= 0,
    ensures
        spec_nodes_by_bucket(s, b).len() == spec_members_below(s, b).len(),
    decreases b,
{
    reveal(Seq::filter);
    if b == 0 {
        lemma_filter_lt_zero_empty(s, 0);
    } else {
        lemma_by_bucket_count(s, b - 1);
        lemma_count_filter_le(s, b - 1);
    }
}

/// Every node's bucket lies below `nb`, so grouping by buckets up to
/// `nb` keeps the whole run's size.
pub proof fn lemma_nodes_by_bucket_size(s: Seq<PackageTableNodeSpec>, b: int)
    requires
        b >= 0,
    ensures
        spec_nodes_size(spec_nodes_by_bucket(s, b)) == spec_nodes_size(spec_members_below(s, b)),
    decreases b,
{
    reveal(Seq::filter);
    if b == 0 {
        lemma_filter_lt_zero_empty(s, 0);
    } else {
        lemma_nodes_by_bucket_size(s, b - 1);
        lemma_nodes_size_concat(spec_nodes_by_bucket(s, b - 1), spec_bucket_members(s, b - 1));
        lemma_size_filter_le(s, b - 1);
    }
}

proof fn lemma_filter_lt_zero_empty(s: Seq<PackageTableNodeSpec>, b: int)
    requires
        b <= 0,
    ensures
        spec_members_below(s, b) =~= Seq::<PackageTableNodeSpec>::empty(),
    decreases s.len(),
{
    reveal(Seq::filter);
    if s.len() > 0 {
        lemma_filter_lt_zero_empty(s.drop_last(), b);
        assert(spec_members_below(s, b) == spec_members_below(s.drop_last(), b));
    }
}

/// Every member of a bucket's run occurs among the original nodes.
proof fn lemma_bucket_members_elem(s: Seq<PackageTableNodeSpec>, b: int, i: int)
    requires
        0 <= i < spec_bucket_members(s, b).len(),
    ensures
        exists|j: int| 0 <= j < s.len() && s[j] == spec_bucket_members(s, b)[i],
        spec_bucket_members(s, b)[i].bucket_index == b,
    decreases s.len(),
{
    reveal(Seq::filter);
    if s.len() > 0 {
        let pre = s.drop_last();
        if s.last().bucket_index == b {
            assert(spec_bucket_members(s, b) == spec_bucket_members(pre, b).push(s.last()));
            if i < spec_bucket_members(pre, b).len() {
                lemma_bucket_members_elem(pre, b, i);
                let j = choose|j: int|
                    0 <= j < pre.len() && pre[j] == spec_bucket_members(pre, b)[i];
                assert(s[j] == spec_bucket_members(s, b)[i]);
            } else {
                assert(s[s.len() - 1] == spec_bucket_members(s, b)[i]);
            }
        } else {
            assert(spec_bucket_members(s, b) == spec_bucket_members(pre, b));
            lemma_bucket_members_elem(pre, b, i);
            let j = choose|j: int| 0 <= j < pre.len() && pre[j] == spec_bucket_members(s, b)[i];
            assert(s[j] == spec_bucket_members(s, b)[i]);
        }
    }
}

/// The grouped layout holds exactly nodes of the original run, every
/// one in a bucket below `b`, in nondecreasing bucket order.
pub proof fn lemma_by_bucket_props(s: Seq<PackageTableNodeSpec>, b: int)
    ensures
        forall|i: int|
            0 <= i < spec_nodes_by_bucket(s, b).len() ==> 0 <= (
            #[trigger] spec_nodes_by_bucket(s, b)[i]).bucket_index < b && exists|j: int|
                0 <= j < s.len() && s[j] == spec_nodes_by_bucket(s, b)[i],
        forall|i: int, k: int|
            0 <= i <= k < spec_nodes_by_bucket(s, b).len() ==> (#[trigger] spec_nodes_by_bucket(
                s,
                b,
            )[i]).bucket_index <= (#[trigger] spec_nodes_by_bucket(s, b)[k]).bucket_index,
    decreases b,
{
    if b > 0 {
        lemma_by_bucket_props(s, b - 1);
        let prev = spec_nodes_by_bucket(s, b - 1);
        let mem = spec_bucket_members(s, b - 1);
        assert forall|i: int| 0 <= i < spec_nodes_by_bucket(s, b).len() implies 0 <= (
        #[trigger] spec_nodes_by_bucket(s, b)[i]).bucket_index < b && exists|j: int|
            0 <= j < s.len() && s[j] == spec_nodes_by_bucket(s, b)[i] by {
            if i < prev.len() {
                assert(spec_nodes_by_bucket(s, b)[i] == prev[i]);
            } else {
                lemma_bucket_members_elem(s, b - 1, i - prev.len());
                assert(spec_nodes_by_bucket(s, b)[i] == mem[i - prev.len()]);
            }
        }
    }
}

/// When every node's bucket is below `b`, the filter keeps everything.
pub proof fn lemma_filter_lt_all(s: Seq<PackageTableNodeSpec>, b: int)
    requires
        forall|i: int| 0 <= i < s.len() ==> #[trigger] s[i].bucket_index < b,
    ensures
        spec_members_below(s, b) =~= s,
    decreases s.len(),
{
    reveal(Seq::filter);
    if s.len() > 0 {
        assert(forall|i: int| 0 <= i < s.len() - 1 ==> #[trigger] s.drop_last()[i].bucket_index
            < b);
        lemma_filter_lt_all(s.drop_last(), b);
        assert(s.last().bucket_index < b);
        assert(spec_members_below(s, b) == spec_members_below(s.drop_last(), b).push(s.last()));
        assert(s.drop_last().push(s.last()) =~= s);
    }
}

// ---------------------------------------------------------------------------
// The table itself.
// ---------------------------------------------------------------------------

/// Mathematical model of a package table.
pub ghost struct PackageTableSpec {
    pub header: PackageTableHeaderSpec,
    pub buckets: Seq<Option<u32>>,
    pub nodes: Seq<PackageTableNodeSpec>,
}

/// A package table ready for byte serialization: header, bucket slots
/// (absolute byte offsets, none when the bucket is empty), and nodes
/// grouped by bucket.
#[derive(Debug, PartialEq, Eq)]
pub struct PackageTable {
    pub header: PackageTableHeader,
    pub buckets: Vec<Option<u32>>,
    pub nodes: Vec<PackageTableNode>,
}

impl View for PackageTable {
    type V = PackageTableSpec;

    open spec fn view(&self) -> PackageTableSpec {
        PackageTableSpec {
            header: self.header@,
            buckets: self.buckets@,
            nodes: self.nodes@.map_values(|n: PackageTableNode| n@),
        }
    }
}

/// Node region: each node's encoding in layout order.
pub open spec fn spec_nodes_bytes(nodes: Seq<PackageTableNodeSpec>) -> Seq<u8>
    decreases nodes.len(),
{
    if nodes.len() == 0 {
        Seq::empty()
    } else {
        spec_nodes_bytes(nodes.drop_last()) + nodes.last().spec_bytes()
    }
}

impl PackageTableSpec {
    pub open spec fn spec_bytes(self) -> Seq<u8> {
        self.header.spec_bytes() + spec_slots_bytes(self.buckets) + spec_nodes_bytes(self.nodes)
    }

    /// The consistency the construction establishes: the header's
    /// region offsets describe the layout, the node count matches, and
    /// no slot or link abuses the 0-means-none convention — exactly
    /// what the package map decoder needs to read the bytes back.
    pub open spec fn wf(self) -> bool {
        &&& str_bytes_wf(self.header.container)
        &&& self.header.version < 2
        &&& self.header.bucket_offset == spec_header_size(self.header.container)
        &&& self.header.node_offset == self.header.bucket_offset + 4 * self.buckets.len()
        &&& self.header.num_packages == self.nodes.len()
        &&& forall|i: int|
            0 <= i < self.nodes.len() ==> str_bytes_wf((#[trigger] self.nodes[i]).package_name)
        &&& forall|i: int|
            0 <= i < self.nodes.len() ==> (#[trigger] self.nodes[i]).next_offset != Some(0u32)
        &&& forall|b: int| 0 <= b < self.buckets.len() ==> #[trigger] self.buckets[b] != Some(0u32)
    }
}

impl PackageTable {
    /// Serializes the whole table: header, bucket region, node region.
    pub fn as_bytes(&self) -> (r: Vec<u8>)
        requires
            str_bytes_wf(self@.header.container),
            forall|i: int|
                0 <= i < self@.nodes.len() ==> str_bytes_wf(
                    (#[trigger] self@.nodes[i]).package_name,
                ),
        ensures
            r@ == self@.spec_bytes(),
    {
        let mut result = self.header.as_bytes();
        let nb = self.buckets.len();
        let mut i: usize = 0;
        while i < nb
            invariant
                i <= nb,
                nb == self.buckets@.len(),
                result@ == self@.header.spec_bytes() + spec_slots_bytes(
                    self.buckets@.subrange(0, i as int),
                ),
            decreases nb - i,
        {
            push_u32_le(&mut result, match self.buckets[i] {
                Some(o) => o,
                None => 0,
            });
            i = i + 1;
            proof {
                assert(self.buckets@.subrange(0, i as int).drop_last() =~= self.buckets@.subrange(
                    0,
                    i as int - 1,
                ));
                assert(result@ =~= self@.header.spec_bytes() + spec_slots_bytes(
                    self.buckets@.subrange(0, i as int),
                ));
            }
        }
        proof {
            assert(self.buckets@.subrange(0, nb as int) =~= self.buckets@);
        }
        let nn = self.nodes.len();
        let mut j: usize = 0;
        while j < nn
            invariant
                j <= nn,
                nn == self.nodes@.len(),
                forall|k: int|
                    0 <= k < self@.nodes.len() ==> str_bytes_wf(
                        (#[trigger] self@.nodes[k]).package_name,
                    ),
                result@ == self@.header.spec_bytes() + spec_slots_bytes(self@.buckets)
                    + spec_nodes_bytes(self@.nodes.subrange(0, j as int)),
            decreases nn - j,
        {
            proof {
                assert(self.nodes@[j as int]@ == self@.nodes[j as int]);
            }
            let mut node_bytes = self.nodes[j].as_bytes();
            result.append(&mut node_bytes);
            j = j + 1;
            proof {
                assert(self@.nodes.subrange(0, j as int).drop_last() =~= self@.nodes.subrange(
                    0,
                    j as int - 1,
                ));
                assert(result@ =~= self@.header.spec_bytes() + spec_slots_bytes(self@.buckets)
                    + spec_nodes_bytes(self@.nodes.subrange(0, j as int)));
            }
        }
        proof {
            assert(self@.nodes.subrange(0, nn as int) =~= self@.nodes);
            assert(result@ =~= self@.spec_bytes());
        }
        result
    }
}

fn set_slot(buckets: &mut Vec<Option<u32>>, idx: usize, v: u32)
    requires
        idx < old(buckets)@.len(),
    ensures
        final(buckets)@ == old(buckets)@.update(idx as int, Some(v)),
{
    let _ = buckets.remove(idx);
    buckets.insert(idx, Some(v));
    proof {
        assert(buckets@ =~= old(buckets)@.update(idx as int, Some(v)));
    }
}

impl PackageTable {
    /// Builds the table for one container: picks the bucket count, lays
    /// the nodes out grouped by bucket in stable order, assigns byte
    /// offsets, chain links and bucket slots, and fills the header's
    /// size fields.
    ///
    /// Fails exactly when the package count exceeds every supported
    /// bucket count.
    pub fn new(container: &str, packages: &Vec<FlagPackage>) -> (r: Result<
        PackageTable,
        AconfigStorageError,
    >)
        requires
            str_bytes_wf(container@),
            packages@.len() <= u32::MAX,
            forall|k: int|
                0 <= k < packages@.len() ==> str_bytes_wf(
                    (#[trigger] packages@[k])@.package_name,
                ),
            match spec_table_size(packages@.len() as u32) {
                Some(nb) => spec_header_size(container@) + 4 * nb + spec_nodes_size(
                    packages@.map_values(|p: FlagPackage| spec_node_of(p@, nb)),
                ) <= u32::MAX,
                None => true,
            },
        ensures
            match spec_table_size(packages@.len() as u32) {
                None => r == Err::<PackageTable, AconfigStorageError>(
                    AconfigStorageError::UnsupportedTableSize,
                ),
                Some(nb) => r matches Ok(t) && {
                    let all = packages@.map_values(|p: FlagPackage| spec_node_of(p@, nb));
                    let sorted = spec_nodes_by_bucket(all, nb as int);
                    let base = spec_header_size(container@) + 4 * nb;
                    &&& t@.wf()
                    &&& t@.nodes == spec_link_nodes(sorted, base)
                    &&& t@.buckets.len() == nb
                    &&& forall|b: int|
                        0 <= b < nb ==> #[trigger] t@.buckets[b] == spec_bucket_slot(
                            sorted,
                            sorted.len() as int,
                            b,
                            base,
                        )
                    &&& t@.header.version == FILE_VERSION
                    &&& t@.header.container == container@
                    &&& t@.header.file_type == crate::StorageFileType::PackageMap.spec_code()
                    &&& t@.header.num_packages == packages@.len()
                    &&& t@.header.bucket_offset == spec_header_size(container@)
                    &&& t@.header.node_offset == base
                    &&& t@.header.file_size == base + spec_nodes_size(sorted)
                },
            },
    {
        let num_packages = packages.len() as u32;
        let num_buckets = match get_table_size(num_packages) {
            Ok(n) => n,
            Err(e) => {
                return Err(e);
            },
        };
        let ghost all = packages@.map_values(|p: FlagPackage| spec_node_of(p@, num_buckets));
        let ghost sorted = spec_nodes_by_bucket(all, num_buckets as int);

        // Region offsets are known before any node is laid out: the
        // header's length depends only on the container name.
        let mut header = PackageTableHeader::new(container, num_packages);
        let header_len = header.as_bytes().len() as u32;
        proof {
            lemma_header_bytes_len(header@);
            lemma_nodes_size_nonneg(all);
        }
        header.bucket_offset = header_len;
        header.node_offset = header_len + num_buckets * 4;
        let node_base = header.node_offset;

        // Gather the nodes bucket by bucket: the stable layout.
        let mut nodes: Vec<PackageTableNode> = Vec::new();
        let mut b: u32 = 0;
        while b < num_buckets
            invariant
                b <= num_buckets,
                num_buckets > 0,
                all == packages@.map_values(|p: FlagPackage| spec_node_of(p@, num_buckets)),
                forall|k: int|
                    0 <= k < packages@.len() ==> str_bytes_wf(
                        (#[trigger] packages@[k])@.package_name,
                    ),
                nodes@.map_values(|n: PackageTableNode| n@) == spec_nodes_by_bucket(
                    all,
                    b as int,
                ),
            decreases num_buckets - b,
        {
            let m = packages.len();
            let mut j: usize = 0;
            while j < m
                invariant
                    j <= m,
                    m == packages@.len(),
                    num_buckets > 0,
                    all == packages@.map_values(|p: FlagPackage| spec_node_of(p@, num_buckets)),
                    forall|k: int|
                        0 <= k < packages@.len() ==> str_bytes_wf(
                            (#[trigger] packages@[k])@.package_name,
                        ),
                    nodes@.map_values(|n: PackageTableNode| n@) == spec_nodes_by_bucket(
                        all,
                        b as int,
                    ) + spec_bucket_members(all.subrange(0, j as int), b as int),
                decreases m - j,
            {
                let node = PackageTableNode::new(&packages[j], num_buckets);
                proof {
                    reveal(Seq::filter);
                    assert(all.subrange(0, j as int + 1).drop_last() =~= all.subrange(
                        0,
                        j as int,
                    ));
                    assert(all.subrange(0, j as int + 1).last() == all[j as int]);
                    assert(all[j as int] == node@);
                }
                if node.bucket_index == b {
                    let ghost nodes_pre = nodes@.map_values(|n: PackageTableNode| n@);
                    nodes.push(node);
                    proof {
                        assert(spec_bucket_members(all.subrange(0, j as int + 1), b as int)
                            == spec_bucket_members(all.subrange(0, j as int), b as int).push(
                            all[j as int],
                        ));
                        assert(nodes@.map_values(|n: PackageTableNode| n@) =~= nodes_pre.push(
                            all[j as int],
                        ));
                        assert(nodes_pre.push(all[j as int]) =~= spec_nodes_by_bucket(
                            all,
                            b as int,
                        ) + spec_bucket_members(all.subrange(0, j as int), b as int).push(
                            all[j as int],
                        ));
                    }
                } else {
                    proof {
                        assert(spec_bucket_members(all.subrange(0, j as int + 1), b as int)
                            == spec_bucket_members(all.subrange(0, j as int), b as int));
                    }
                }
                j = j + 1;
            }
            b = b + 1;
            proof {
                assert(all.subrange(0, m as int) =~= all);
                assert(nodes@.map_values(|n: PackageTableNode| n@) =~= spec_nodes_by_bucket(
                    all,
                    b as int,
                ));
            }
        }
        proof {
            assert(nodes@.map_values(|n: PackageTableNode| n@) == sorted);
            lemma_by_bucket_props(all, num_buckets as int);
            assert forall|i: int| 0 <= i < sorted.len() implies str_bytes_wf(
                (#[trigger] sorted[i]).package_name,
            ) by {
                let j = choose|j: int| 0 <= j < all.len() && all[j] == sorted[i];
                assert(all[j] == (packages@.map_values(
                    |p: FlagPackage| spec_node_of(p@, num_buckets),
                ))[j]);
            }
            assert forall|i: int| 0 <= i < all.len() implies (#[trigger] all[i]).bucket_index
                < num_buckets by {
                assert(all[i] == spec_node_of(packages@[i]@, num_buckets));
            }
            lemma_filter_lt_all(all, num_buckets as int);
            lemma_nodes_by_bucket_size(all, num_buckets as int);
            assert(spec_members_below(all, num_buckets as int) =~= all);
            assert(spec_nodes_size(sorted) == spec_nodes_size(all));
            lemma_nodes_size_nonneg(sorted);
            assert(spec_header_size(container@) >= 25);
        }

        // Assign offsets, bucket slots and chain links in one pass.
        let ghost total_size: int = spec_nodes_size(sorted);
        let ghost base: int = node_base as int;
        let mut buckets: Vec<Option<u32>> = vec![None; num_buckets as usize];
        let n_nodes = nodes.len();
        let mut linked: Vec<PackageTableNode> = Vec::new();
        let mut offset: u32 = node_base;
        let mut i: usize = 0;
        proof {
            assert(sorted.subrange(0, 0) =~= Seq::<PackageTableNodeSpec>::empty());
        }
        while i < n_nodes
            invariant
                i <= n_nodes,
                n_nodes == nodes@.len(),
                nodes@.map_values(|n: PackageTableNode| n@) == sorted,
                forall|k: int|
                    0 <= k < sorted.len() ==> str_bytes_wf((#[trigger] sorted[k]).package_name),
                forall|k: int|
                    0 <= k < sorted.len() ==> 0 <= (#[trigger] sorted[k]).bucket_index
                        < num_buckets,
                total_size == spec_nodes_size(sorted),
                base == node_base,
                base >= 1,
                base + total_size <= u32::MAX,
                offset == base + spec_nodes_size(sorted.subrange(0, i as int)),
                buckets@.len() == num_buckets,
                forall|bb: int|
                    0 <= bb < num_buckets ==> #[trigger] buckets@[bb] == spec_bucket_slot(
                        sorted,
                        i as int,
                        bb,
                        base,
                    ),
                linked@.map_values(|n: PackageTableNode| n@) == spec_link_nodes(
                    sorted,
                    base,
                ).subrange(0, i as int),
            decreases n_nodes - i,
        {
            proof {
                lemma_nodes_size_prefix(sorted, i as int + 1);
                assert(sorted.subrange(0, i as int + 1).drop_last() =~= sorted.subrange(
                    0,
                    i as int,
                ));
                assert(sorted.subrange(0, i as int + 1).last() == sorted[i as int]);
                lemma_nodes_size_nonneg(sorted.subrange(0, i as int));
                lemma_node_bytes_len(sorted[i as int]);
                lemma_str_bytes_len(sorted[i as int].package_name);
            }
            let node_size = nodes[i].as_bytes().len() as u32;
            let bi = nodes[i].bucket_index;
            let slot_taken = buckets[bi as usize].is_some();
            if !slot_taken {
                set_slot(&mut buckets, bi as usize, offset);
            }
            proof {
                assert forall|bb: int| 0 <= bb < num_buckets implies #[trigger] buckets@[bb]
                    == spec_bucket_slot(sorted, i as int + 1, bb, base) by {
                    if bb == bi as int {
                        if slot_taken {
                        } else {
                            assert(spec_bucket_slot(sorted, i as int, bb, base) is None);
                        }
                    } else {
                        assert(sorted[i as int].bucket_index != bb);
                    }
                }
            }
            let next = if i + 1 < n_nodes {
                if nodes[i + 1].bucket_index == bi {
                    Some(offset + node_size)
                } else {
                    None
                }
            } else {
                None
            };
            let ghost linked_pre = linked@.map_values(|n: PackageTableNode| n@);
            let new_node = PackageTableNode {
                package_name: nodes[i].package_name.clone(),
                package_id: nodes[i].package_id,
                boolean_offset: nodes[i].boolean_offset,
                next_offset: next,
                bucket_index: bi,
            };
            proof {
                assert(nodes@[i as int]@ == sorted[i as int]);
                assert(spec_nodes_size(sorted.subrange(0, i as int + 1)) == spec_nodes_size(
                    sorted.subrange(0, i as int),
                ) + sorted[i as int].spec_size());
                assert(new_node@.package_name == sorted[i as int].package_name);
                assert(new_node@ == spec_link_nodes(sorted, base)[i as int]);
            }
            linked.push(new_node);
            proof {
                assert(linked@.map_values(|n: PackageTableNode| n@) =~= linked_pre.push(
                    new_node@,
                ));
                assert(spec_link_nodes(sorted, base).subrange(0, i as int + 1).drop_last()
                    =~= spec_link_nodes(sorted, base).subrange(0, i as int));
                assert(linked_pre.push(new_node@) =~= spec_link_nodes(sorted, base).subrange(
                    0,
                    i as int + 1,
                ));
            }
            offset = offset + node_size;
            i = i + 1;
        }
        proof {
            assert(sorted.subrange(0, n_nodes as int) =~= sorted);
            assert(spec_link_nodes(sorted, base).subrange(0, n_nodes as int) =~= spec_link_nodes(
                sorted,
                base,
            ));
        }

        // The total size is the absolute end of the node region.
        header.file_size = offset;
        let r = PackageTable { header, buckets, nodes: linked };
        proof {
            lemma_by_bucket_count(all, num_buckets as int);
            assert(spec_members_below(all, num_buckets as int) =~= all);
            assert(sorted.len() == all.len());
            assert forall|k: int| 0 <= k < r@.nodes.len() implies (#[trigger] r@.nodes[
                k
            ]).next_offset != Some(0u32) by {
                if spec_link_nodes(sorted, base)[k].next_offset is Some {
                    lemma_nodes_size_prefix(sorted, k + 1);
                    lemma_nodes_size_nonneg(sorted.subrange(0, k + 1));
                }
            }
            assert forall|bb: int| 0 <= bb < r@.buckets.len() implies (#[trigger] r@.buckets[
                bb
            ]) != Some(0u32) by {
                if spec_bucket_slot(sorted, sorted.len() as int, bb, base) is Some {
                    lemma_slot_points_at_bucket(sorted, sorted.len() as int, bb, base);
                    let i0 = choose|i0: int|
                        0 <= i0 < sorted.len() && (#[trigger] sorted[i0]).bucket_index == bb
                            && spec_bucket_slot(sorted, sorted.len() as int, bb, base) == Some(
                            (base + spec_nodes_size(sorted.subrange(0, i0))) as u32,
                        );
                    lemma_nodes_size_prefix(sorted, i0);
                    lemma_nodes_size_nonneg(sorted.subrange(0, i0));
                }
            }
            assert(r@.wf());
        }
        Ok(r)
    }
}

// ---------------------------------------------------------------------------
// Bucket-chain integrity.
// ---------------------------------------------------------------------------

/// The number of nodes on the chain that starts at node `i`: the run of
/// consecutive nodes sharing its bucket.
pub open spec fn spec_chain_len(s: Seq<PackageTableNodeSpec>, i: int) -> int
    decreases s.len() - i when 0 <= i < s.len()
{
    if 0 <= i && i + 1 < s.len() && s[i + 1].bucket_index == s[i].bucket_index {
        1 + spec_chain_len(s, i + 1)
    } else {
        1
    }
}

/// A chain never outruns the node count.
pub proof fn lemma_chain_len_bounded(s: Seq<PackageTableNodeSpec>, i: int)
    requires
        0 <= i < s.len(),
    ensures
        spec_chain_len(s, i) <= s.len() - i,
    decreases s.len() - i,
{
    if i + 1 < s.len() && s[i + 1].bucket_index == s[i].bucket_index {
        lemma_chain_len_bounded(s, i + 1);
    }
}

/// A filled bucket slot carries the absolute offset of a node of that
/// bucket.
proof fn lemma_slot_points_at_bucket(s: Seq<PackageTableNodeSpec>, upto: int, b: int, base: int)
    requires
        0 <= upto <= s.len(),
        spec_bucket_slot(s, upto, b, base) is Some,
    ensures
        exists|i: int|
            0 <= i < upto && (#[trigger] s[i]).bucket_index == b && spec_bucket_slot(
                s,
                upto,
                b,
                base,
            ) == Some((base + spec_nodes_size(s.subrange(0, i))) as u32),
    decreases upto,
{
    if spec_bucket_slot(s, upto - 1, b, base) is Some {
        lemma_slot_points_at_bucket(s, upto - 1, b, base);
        let i = choose|i: int|
            0 <= i < upto - 1 && (#[trigger] s[i]).bucket_index == b && spec_bucket_slot(
                s,
                upto - 1,
                b,
                base,
            ) == Some((base + spec_nodes_size(s.subrange(0, i))) as u32);
        assert(0 <= i < upto && s[i].bucket_index == b && spec_bucket_slot(s, upto, b, base)
            == Some((base + spec_nodes_size(s.subrange(0, i))) as u32));
    } else {
        assert(s[upto - 1].bucket_index == b && spec_bucket_slot(s, upto, b, base) == Some(
            (base + spec_nodes_size(s.subrange(0, upto - 1))) as u32,
        ));
    }
}

/// Bucket-chain integrity of the built layout: a filled bucket slot
/// points at a node of that bucket; every chain link moves to the next
/// laid-out node, which shares the bucket, so every node reachable from
/// a slot belongs to that bucket and carries the bucket its name hashes
/// to; and a chain walk ends within the node count.
pub proof fn lemma_bucket_chain_integrity(all: Seq<PackageTableNodeSpec>, nb: u32, base: int)
    requires
        nb > 0,
        forall|i: int|
            0 <= i < all.len() ==> (#[trigger] all[i]).bucket_index == spec_bucket_index(
                all[i].package_name,
                nb,
            ),
    ensures
        ({
            let sorted = spec_nodes_by_bucket(all, nb as int);
            let linked = spec_link_nodes(sorted, base);
            &&& forall|b: int|
                (#[trigger] spec_bucket_slot(sorted, sorted.len() as int, b, base)) is Some
                    ==> exists|i: int|
                    0 <= i < linked.len() && (#[trigger] linked[i]).bucket_index == b
                        && spec_bucket_slot(sorted, sorted.len() as int, b, base) == Some(
                        (base + spec_nodes_size(sorted.subrange(0, i))) as u32,
                    )
            &&& forall|i: int|
                0 <= i < linked.len() && (#[trigger] linked[i]).next_offset is Some ==> i + 1
                    < linked.len() && linked[i + 1].bucket_index == linked[i].bucket_index
                    && linked[i].next_offset == Some(
                    (base + spec_nodes_size(sorted.subrange(0, i + 1))) as u32,
                )
            &&& forall|i: int|
                0 <= i < linked.len() ==> (#[trigger] linked[i]).bucket_index
                    == spec_bucket_index(linked[i].package_name, nb)
            &&& forall|i: int|
                0 <= i < linked.len() ==> #[trigger] spec_chain_len(linked, i) <= linked.len() - i
        }),
{
    let sorted = spec_nodes_by_bucket(all, nb as int);
    let linked = spec_link_nodes(sorted, base);
    lemma_by_bucket_props(all, nb as int);
    assert forall|b: int|
        (#[trigger] spec_bucket_slot(sorted, sorted.len() as int, b, base)) is Some implies exists|
        i: int,
    |
        0 <= i < linked.len() && (#[trigger] linked[i]).bucket_index == b && spec_bucket_slot(
            sorted,
            sorted.len() as int,
            b,
            base,
        ) == Some((base + spec_nodes_size(sorted.subrange(0, i))) as u32) by {
        lemma_slot_points_at_bucket(sorted, sorted.len() as int, b, base);
        let i = choose|i: int|
            0 <= i < sorted.len() && (#[trigger] sorted[i]).bucket_index == b && spec_bucket_slot(
                sorted,
                sorted.len() as int,
                b,
                base,
            ) == Some((base + spec_nodes_size(sorted.subrange(0, i))) as u32);
        assert(linked[i].bucket_index == b);
    }
    assert forall|i: int| 0 <= i < linked.len() implies (#[trigger] linked[i]).bucket_index
        == spec_bucket_index(linked[i].package_name, nb) by {
        assert(linked[i].bucket_index == sorted[i].bucket_index && linked[i].package_name
            == sorted[i].package_name);
        let j = choose|j: int| 0 <= j < all.len() && all[j] == sorted[i];
    }
    assert forall|i: int| 0 <= i < linked.len() implies #[trigger] spec_chain_len(linked, i)
        <= linked.len() - i by {
        lemma_chain_len_bounded(linked, i);
    }
}

// ---------------------------------------------------------------------------
// Round trip through the package map codec.
// ---------------------------------------------------------------------------

/// The read-side view of one built node: the same fields, with
/// fingerprint 0 (version 1 writes none) and the derived bucket index
/// dropped.
pub open spec fn spec_read_node_view(n: PackageTableNodeSpec) -> crate::package_map::PackageTableNodeSpec {
    crate::package_map::PackageTableNodeSpec {
        package_name: n.package_name,
        package_id: n.package_id,
        fingerprint: 0,
        boolean_start_index: n.boolean_offset,
        next_offset: n.next_offset,
    }
}

/// The read-side view of a built table.
pub open spec fn spec_read_view(t: PackageTableSpec) -> crate::package_map::PackageTableSpec {
    crate::package_map::PackageTableSpec {
        header: crate::package_map::PackageTableHeaderSpec {
            version: t.header.version,
            container: t.header.container,
            file_type: t.header.file_type,
            file_size: t.header.file_size,
            num_packages: t.header.num_packages,
            bucket_offset: t.header.bucket_offset,
            node_offset: t.header.node_offset,
        },
        buckets: t.buckets,
        nodes: t.nodes.map_values(|n: PackageTableNodeSpec| spec_read_node_view(n)),
    }
}

/// Below format version 2, a built node region serializes exactly as
/// its read-side view does.
proof fn lemma_nodes_bytes_match(nodes: Seq<PackageTableNodeSpec>, version: u32)
    requires
        version < 2,
    ensures
        crate::package_map::spec_nodes_bytes(
            nodes.map_values(|n: PackageTableNodeSpec| spec_read_node_view(n)),
            version,
        ) == spec_nodes_bytes(nodes),
    decreases nodes.len(),
{
    let mapped = nodes.map_values(|n: PackageTableNodeSpec| spec_read_node_view(n));
    if nodes.len() == 0 {
        assert(mapped.len() == 0);
    } else {
        assert(mapped.drop_last() =~= nodes.drop_last().map_values(
            |n: PackageTableNodeSpec| spec_read_node_view(n),
        ));
        lemma_nodes_bytes_match(nodes.drop_last(), version);
        assert(mapped.last() == spec_read_node_view(nodes.last()));
        assert(mapped.last().spec_bytes(version) =~= nodes.last().spec_bytes());
        assert(crate::package_map::spec_nodes_bytes(mapped, version) =~= spec_nodes_bytes(nodes));
    }
}

/// Round trip of the build chain: the bytes a well-formed built table
/// serializes to decode, in the package map codec, to exactly that
/// table's read-side view — field for field.
pub proof fn lemma_build_table_round_trip(t: PackageTableSpec)
    requires
        t.wf(),
    ensures
        crate::package_map::PackageTableSpec::spec_from_bytes(t.spec_bytes()) == Some(
            spec_read_view(t),
        ),
{
    let m = spec_read_view(t);
    assert(m.header.spec_bytes() =~= t.header.spec_bytes());
    lemma_nodes_bytes_match(t.nodes, t.header.version);
    assert(m.spec_bytes() =~= t.spec_bytes());
    lemma_header_bytes_len(t.header);
    assert forall|i: int| 0 <= i < m.nodes.len() implies (#[trigger] m.nodes[i]).wf(
        m.header.version,
    ) by {
        assert(m.nodes[i] == spec_read_node_view(t.nodes[i]));
    }
    assert(m.wf());
    crate::package_map::lemma_package_map_round_trip(m);
    assert(crate::package_map::PackageTableSpec::spec_from_bytes(t.spec_bytes()) == Some(m));
}

} // verus!
