//! The flag info list: one metadata byte per boolean flag (bit 0 says
//! read-write), indexed like the flag value list, and its construction
//! from grouped packages.

use vstd::prelude::*;
use vstd::bytes::spec_u32_to_le_bytes;
use crate::bytes::{
    spec_read_u8, spec_read_u32, spec_read_str, spec_str_bytes, str_bytes_wf, read_u8_from_bytes,
    read_u32_from_bytes, read_str_from_bytes, push_u8, push_u32_le, push_str_bytes,
    lemma_subrange_of_matching, lemma_read_u8_of_encoding, lemma_read_u32_of_encoding,
    lemma_read_str_of_encoding, lemma_u32_le_len, lemma_str_bytes_len,
};
use crate::flags::{
    FlagPackage, FlagPackageSpec, FlagPermission, grouped_wf, spec_count_upto, assign_flag_ids,
    find_flag_id, lemma_count_upto_monotone,
};
use crate::{AconfigStorageError, StorageFileType, FILE_VERSION};

verus! {

/// Mathematical model of a flag info list header.
pub ghost struct FlagInfoHeaderSpec {
    pub version: u32,
    pub container: Seq<char>,
    pub file_type: u8,
    pub file_size: u32,
    pub num_flags: u32,
    pub boolean_flag_offset: u32,
}

/// Header of a flag info list file.
#[derive(Debug, PartialEq, Eq)]
pub struct FlagInfoHeader {
    pub version: u32,
    pub container: String,
    pub file_type: u8,
    pub file_size: u32,
    pub num_flags: u32,
    pub boolean_flag_offset: u32,
}

impl View for FlagInfoHeader {
    type V = FlagInfoHeaderSpec;

    open spec fn view(&self) -> FlagInfoHeaderSpec {
        FlagInfoHeaderSpec {
            version: self.version,
            container: self.container@,
            file_type: self.file_type,
            file_size: self.file_size,
            num_flags: self.num_flags,
            boolean_flag_offset: self.boolean_flag_offset,
        }
    }
}

impl FlagInfoHeaderSpec {
    pub open spec fn wf(self) -> bool {
        str_bytes_wf(self.container)
    }

    pub open spec fn spec_bytes(self) -> Seq<u8> {
        spec_u32_to_le_bytes(self.version) + spec_str_bytes(self.container) + seq![self.file_type]
            + spec_u32_to_le_bytes(self.file_size) + spec_u32_to_le_bytes(self.num_flags)
            + spec_u32_to_le_bytes(self.boolean_flag_offset)
    }

    pub open spec fn spec_read(buf: Seq<u8>, pos: int) -> Option<(FlagInfoHeaderSpec, int)> {
        match spec_read_u32(buf, pos) {
            None => None,
            Some((version, p1)) => match spec_read_str(buf, p1) {
                None => None,
                Some((container, p2)) => match spec_read_u8(buf, p2) {
                    None => None,
                    Some((file_type, p3)) => match spec_read_u32(buf, p3) {
                        None => None,
                        Some((file_size, p4)) => match spec_read_u32(buf, p4) {
                            None => None,
                            Some((num_flags, p5)) => match spec_read_u32(buf, p5) {
                                None => None,
                                Some((boolean_flag_offset, p6)) => Some(
                                    (
                                        FlagInfoHeaderSpec {
                                            version,
                                            container,
                                            file_type,
                                            file_size,
                                            num_flags,
                                            boolean_flag_offset,
                                        },
                                        p6,
                                    ),
                                ),
                            },
                        },
                    },
                },
            },
        }
    }
}

/// A flag info header's encoded length: the fixed fields plus the
/// container's UTF-8 form.
pub proof fn lemma_flag_info_header_len(h: FlagInfoHeaderSpec)
    ensures
        h.spec_bytes().len() == 21 + vstd::utf8::encode_utf8(h.container).len(),
{
    lemma_u32_le_len(h.version);
    lemma_u32_le_len(h.file_size);
    lemma_u32_le_len(h.num_flags);
    lemma_u32_le_len(h.boolean_flag_offset);
    lemma_str_bytes_len(h.container);
}

/// Reading a serialized flag info header back recovers it.
pub proof fn lemma_flag_info_header_read_of_encoding(
    buf: Seq<u8>,
    pos: int,
    h: FlagInfoHeaderSpec,
)
    requires
        0 <= pos,
        h.wf(),
        pos + h.spec_bytes().len() <= buf.len(),
        buf.subrange(pos, pos + h.spec_bytes().len()) == h.spec_bytes(),
    ensures
        FlagInfoHeaderSpec::spec_read(buf, pos) == Some((h, pos + h.spec_bytes().len())),
{
    let full = h.spec_bytes();
    let sb = spec_str_bytes(h.container);
    lemma_u32_le_len(h.version);
    lemma_u32_le_len(h.file_size);
    lemma_u32_le_len(h.num_flags);
    lemma_u32_le_len(h.boolean_flag_offset);
    lemma_str_bytes_len(h.container);
    let o1: int = 4;
    let o2: int = o1 + sb.len();
    let o3: int = o2 + 1;
    let o4: int = o3 + 4;
    let o5: int = o4 + 4;
    let o6: int = o5 + 4;
    assert(full.len() == o6);
    lemma_subrange_of_matching(buf, pos, full, 0, o1);
    assert(full.subrange(0, o1) =~= spec_u32_to_le_bytes(h.version));
    lemma_read_u32_of_encoding(buf, pos, h.version);
    lemma_subrange_of_matching(buf, pos, full, o1, o2);
    assert(full.subrange(o1, o2) =~= sb);
    lemma_read_str_of_encoding(buf, pos + o1, h.container);
    lemma_subrange_of_matching(buf, pos, full, o2, o3);
    assert(full.subrange(o2, o3) =~= seq![h.file_type]);
    lemma_read_u8_of_encoding(buf, pos + o2, h.file_type);
    lemma_subrange_of_matching(buf, pos, full, o3, o4);
    assert(full.subrange(o3, o4) =~= spec_u32_to_le_bytes(h.file_size));
    lemma_read_u32_of_encoding(buf, pos + o3, h.file_size);
    lemma_subrange_of_matching(buf, pos, full, o4, o5);
    assert(full.subrange(o4, o5) =~= spec_u32_to_le_bytes(h.num_flags));
    lemma_read_u32_of_encoding(buf, pos + o4, h.num_flags);
    lemma_subrange_of_matching(buf, pos, full, o5, o6);
    assert(full.subrange(o5, o6) =~= spec_u32_to_le_bytes(h.boolean_flag_offset));
    lemma_read_u32_of_encoding(buf, pos + o5, h.boolean_flag_offset);
}

impl FlagInfoHeader {
    /// Serializes the header.
    pub fn into_bytes(&self) -> (r: Vec<u8>)
        requires
            self@.wf(),
        ensures
            r@ == self@.spec_bytes(),
    {
        let mut result: Vec<u8> = Vec::new();
        push_u32_le(&mut result, self.version);
        push_str_bytes(&mut result, self.container.as_str());
        push_u8(&mut result, self.file_type);
        push_u32_le(&mut result, self.file_size);
        push_u32_le(&mut result, self.num_flags);
        push_u32_le(&mut result, self.boolean_flag_offset);
        proof {
            assert(result@ =~= self@.spec_bytes());
        }
        result
    }
}

/// One metadata byte; bit 0 set means the flag is read-write.
#[derive(Debug, PartialEq, Eq)]
pub struct FlagInfoNode {
    pub attributes: u8,
}

impl View for FlagInfoNode {
    type V = u8;

    open spec fn view(&self) -> u8 {
        self.attributes
    }
}

/// The metadata byte of a flag with the given read-write permission.
pub open spec fn spec_attributes_of(is_flag_rw: bool) -> u8 {
    if is_flag_rw {
        1
    } else {
        0
    }
}

impl FlagInfoNode {
    /// Builds the node for one flag: bit 0 carries read-write.
    pub fn create(is_flag_rw: bool) -> (r: FlagInfoNode)
        ensures
            r@ == spec_attributes_of(is_flag_rw),
    {
        FlagInfoNode { attributes: if is_flag_rw {
            1
        } else {
            0
        } }
    }
}

/// Mathematical model of a flag info list.
pub ghost struct FlagInfoListSpec {
    pub header: FlagInfoHeaderSpec,
    pub nodes: Seq<u8>,
}

/// A flag info list file: header plus one metadata byte per flag.
#[derive(Debug, PartialEq, Eq)]
pub struct FlagInfoList {
    pub header: FlagInfoHeader,
    pub nodes: Vec<FlagInfoNode>,
}

impl View for FlagInfoList {
    type V = FlagInfoListSpec;

    open spec fn view(&self) -> FlagInfoListSpec {
        FlagInfoListSpec {
            header: self.header@,
            nodes: self.nodes@.map_values(|n: FlagInfoNode| n@),
        }
    }
}

/// Reads `count` metadata bytes.
pub open spec fn spec_read_attrs(buf: Seq<u8>, pos: int, count: nat) -> Option<(Seq<u8>, int)>
    decreases count,
{
    if count == 0 {
        Some((Seq::empty(), pos))
    } else {
        match spec_read_attrs(buf, pos, (count - 1) as nat) {
            None => None,
            Some((s, p)) => match spec_read_u8(buf, p) {
                None => None,
                Some((v, q)) => Some((s.push(v), q)),
            },
        }
    }
}

pub proof fn lemma_read_attrs_fail(buf: Seq<u8>, pos: int, i: nat, count: nat)
    requires
        i < count,
        spec_read_attrs(buf, pos, i) matches Some(sp) && spec_read_u8(buf, sp.1) is None,
    ensures
        spec_read_attrs(buf, pos, count) is None,
    decreases count,
{
    if count - 1 > i {
        lemma_read_attrs_fail(buf, pos, i, (count - 1) as nat);
    }
}

/// Reading back an encoded run of metadata bytes recovers it.
pub proof fn lemma_read_attrs_of_encoding(buf: Seq<u8>, pos: int, attrs: Seq<u8>)
    requires
        0 <= pos,
        pos + attrs.len() <= buf.len(),
        buf.subrange(pos, pos + attrs.len()) == attrs,
    ensures
        spec_read_attrs(buf, pos, attrs.len()) == Some((attrs, pos + attrs.len())),
    decreases attrs.len(),
{
    if attrs.len() > 0 {
        let pre = attrs.drop_last();
        assert(buf.subrange(pos, pos + pre.len()) =~= pre) by {
            assert forall|i: int| 0 <= i < pre.len() implies buf.subrange(pos, pos + pre.len())[i]
                == pre[i] by {
                assert(buf.subrange(pos, pos + attrs.len())[i] == attrs[i]);
            }
        }
        lemma_read_attrs_of_encoding(buf, pos, pre);
        let p = pos + pre.len();
        assert(buf[p] == buf.subrange(pos, pos + attrs.len())[pre.len() as int]);
        assert(pre.push(attrs.last()) =~= attrs);
    }
}

impl FlagInfoListSpec {
    pub open spec fn wf(self) -> bool {
        &&& self.header.wf()
        &&& self.header.num_flags == self.nodes.len()
    }

    pub open spec fn spec_bytes(self) -> Seq<u8> {
        self.header.spec_bytes() + self.nodes
    }

    pub open spec fn spec_from_bytes(buf: Seq<u8>) -> Option<FlagInfoListSpec> {
        match FlagInfoHeaderSpec::spec_read(buf, 0) {
            None => None,
            Some((h, p)) => match spec_read_attrs(buf, p, h.num_flags as nat) {
                None => None,
                Some((attrs, _)) => Some(FlagInfoListSpec { header: h, nodes: attrs }),
            },
        }
    }
}

/// Round trip: decoding a serialized flag info list recovers it.
pub proof fn lemma_flag_info_list_round_trip(l: FlagInfoListSpec)
    requires
        l.wf(),
    ensures
        FlagInfoListSpec::spec_from_bytes(l.spec_bytes()) == Some(l),
{
    let buf = l.spec_bytes();
    let hb = l.header.spec_bytes();
    assert(buf.subrange(0, hb.len() as int) =~= hb);
    lemma_flag_info_header_read_of_encoding(buf, 0, l.header);
    assert(buf.subrange(hb.len() as int, buf.len() as int) =~= l.nodes);
    lemma_read_attrs_of_encoding(buf, hb.len() as int, l.nodes);
}

impl FlagInfoList {
    /// Serializes the list.
    pub fn into_bytes(&self) -> (r: Vec<u8>)
        requires
            self@.wf(),
        ensures
            r@ == self@.spec_bytes(),
    {
        let mut result = self.header.into_bytes();
        let n = self.nodes.len();
        let mut i: usize = 0;
        while i < n
            invariant
                i <= n,
                n == self.nodes@.len(),
                result@ == self@.header.spec_bytes() + self@.nodes.subrange(0, i as int),
            decreases n - i,
        {
            push_u8(&mut result, self.nodes[i].attributes);
            i = i + 1;
            proof {
                assert(result@ =~= self@.header.spec_bytes() + self@.nodes.subrange(0, i as int));
            }
        }
        proof {
            assert(self@.nodes.subrange(0, n as int) =~= self@.nodes);
            assert(result@ =~= self@.spec_bytes());
        }
        result
    }

    /// Decodes a flag info list. Succeeds exactly when the spec-level
    /// reader does, and then returns exactly what it reads.
    pub fn from_bytes(bytes: &[u8]) -> (r: Result<FlagInfoList, AconfigStorageError>)
        ensures
            match FlagInfoListSpec::spec_from_bytes(bytes@) {
                Some(l) => r matches Ok(v) && v@ == l,
                None => r == Err::<FlagInfoList, AconfigStorageError>(
                    AconfigStorageError::BytesParseFail,
                ),
            },
    {
        let mut head: usize = 0;
        let version = match read_u32_from_bytes(bytes, &mut head) {
            Ok(v) => v,
            Err(e) => {
                return Err(e);
            },
        };
        let container = match read_str_from_bytes(bytes, &mut head) {
            Ok(v) => v,
            Err(e) => {
                return Err(e);
            },
        };
        let file_type = match read_u8_from_bytes(bytes, &mut head) {
            Ok(v) => v,
            Err(e) => {
                return Err(e);
            },
        };
        let file_size = match read_u32_from_bytes(bytes, &mut head) {
            Ok(v) => v,
            Err(e) => {
                return Err(e);
            },
        };
        let num_flags = match read_u32_from_bytes(bytes, &mut head) {
            Ok(v) => v,
            Err(e) => {
                return Err(e);
            },
        };
        let boolean_flag_offset = match read_u32_from_bytes(bytes, &mut head) {
            Ok(v) => v,
            Err(e) => {
                return Err(e);
            },
        };
        let header = FlagInfoHeader {
            version,
            container,
            file_type,
            file_size,
            num_flags,
            boolean_flag_offset,
        };
        let ghost header_end: int = head as int;
        proof {
            assert(FlagInfoHeaderSpec::spec_read(bytes@, 0) == Some((header@, header_end)));
        }
        let mut nodes: Vec<FlagInfoNode> = Vec::new();
        let mut i: u32 = 0;
        while i < num_flags
            invariant
                i <= num_flags,
                FlagInfoHeaderSpec::spec_read(bytes@, 0) == Some((header@, header_end)),
                header@.num_flags == num_flags,
                spec_read_attrs(bytes@, header_end, i as nat) == Some(
                    (nodes@.map_values(|n: FlagInfoNode| n@), head as int),
                ),
            decreases num_flags - i,
        {
            let v = match read_u8_from_bytes(bytes, &mut head) {
                Ok(v) => v,
                Err(e) => {
                    proof {
                        lemma_read_attrs_fail(bytes@, header_end, i as nat, num_flags as nat);
                    }
                    return Err(e);
                },
            };
            let ghost nodes_pre = nodes@.map_values(|n: FlagInfoNode| n@);
            nodes.push(FlagInfoNode { attributes: v });
            proof {
                assert(nodes@.map_values(|n: FlagInfoNode| n@) =~= nodes_pre.push(v));
            }
            i = i + 1;
        }
        Ok(FlagInfoList { header, nodes })
    }
}

/// A fresh flag info header with the size fields still unset.
pub fn new_header(container: &str, num_flags: u32) -> (r: FlagInfoHeader)
    ensures
        r@ == (FlagInfoHeaderSpec {
            version: FILE_VERSION,
            container: container@,
            file_type: StorageFileType::FlagInfo.spec_code(),
            file_size: 0,
            num_flags,
            boolean_flag_offset: 0,
        }),
{
    FlagInfoHeader {
        version: FILE_VERSION,
        container: container.to_owned(),
        file_type: StorageFileType::FlagInfo.code(),
        file_size: 0,
        num_flags,
        boolean_flag_offset: 0,
    }
}

fn set_attr(v: &mut Vec<bool>, idx: usize, b: bool)
    requires
        idx < old(v)@.len(),
    ensures
        final(v)@ == old(v)@.update(idx as int, b),
{
    let _ = v.remove(idx);
    v.insert(idx, b);
    proof {
        assert(v@ =~= old(v)@.update(idx as int, b));
    }
}

/// Whether one package names each of its flags only once.
pub open spec fn spec_distinct_flag_names(p: FlagPackageSpec) -> bool {
    forall|j1: int, j2: int|
        0 <= j1 < j2 < p.boolean_flags.len() ==> (#[trigger] p.boolean_flags[j1]).name != (
        #[trigger] p.boolean_flags[j2]).name
}

/// Builds the flag info list for one container: an all-read-only array
/// sized to the total boolean count, with the read-write bit set at
/// `boolean_start_index + local id` for every read-write flag, the local
/// ids being re-derived by the same assignment used elsewhere.
///
/// For a package whose flag names are distinct, the byte at
/// `boolean_start_index + j` is exactly the metadata of its j-th flag.
/// Construction fails only when a package holds more flags than ids
/// exist; a flag absent from its package's id map would fail with the
/// missing-offset error unless the read-only/disabled exemption covers
/// it, but a map derived from the package itself always contains every
/// flag's name.
pub fn create_flag_info(container: &str, packages: &Vec<FlagPackage>) -> (r: Result<
    FlagInfoList,
    AconfigStorageError,
>)
    requires
        grouped_wf(packages@.map_values(|p: FlagPackage| p@)),
        str_bytes_wf(container@),
        21 + vstd::utf8::encode_utf8(container@).len() + spec_count_upto(
            packages@.map_values(|p: FlagPackage| p@),
            packages@.len() as int,
        ) <= u32::MAX,
    ensures
        ({
            let pkgs = packages@.map_values(|p: FlagPackage| p@);
            let total = spec_count_upto(pkgs, pkgs.len() as int);
            &&& (r is Ok <==> forall|k: int|
                0 <= k < pkgs.len() ==> (#[trigger] pkgs[k].boolean_flags.len()) <= 65536)
            &&& (r matches Ok(l) ==> {
                &&& l@.header.version == FILE_VERSION
                &&& l@.header.container == container@
                &&& l@.header.file_type == StorageFileType::FlagInfo.spec_code()
                &&& l@.header.num_flags == total
                &&& l@.header.boolean_flag_offset == l@.header.spec_bytes().len()
                &&& l@.header.file_size == l@.header.boolean_flag_offset + total
                &&& l@.nodes.len() == total
                &&& forall|k: int, j: int|
                    0 <= k < pkgs.len() && spec_distinct_flag_names(#[trigger] pkgs[k]) && 0 <= j
                        < pkgs[k].boolean_flags.len() ==> l@.nodes[pkgs[
                        k
                    ].boolean_start_index + j] == spec_attributes_of(
                        (#[trigger] pkgs[k].boolean_flags[j]).permission
                            == FlagPermission::ReadWrite,
                    )
            })
        }),
{
    let ghost pkgs = packages@.map_values(|p: FlagPackage| p@);
    let ghost total = spec_count_upto(pkgs, pkgs.len() as int);
    let np = packages.len();

    // Total boolean count.
    let mut num_flags: u32 = 0;
    let mut k: usize = 0;
    while k < np
        invariant
            k <= np,
            np == packages@.len(),
            pkgs == packages@.map_values(|p: FlagPackage| p@),
            total == spec_count_upto(pkgs, pkgs.len() as int),
            total <= u32::MAX,
            num_flags == spec_count_upto(pkgs, k as int),
        decreases np - k,
    {
        proof {
            lemma_count_upto_monotone(pkgs, k as int + 1, pkgs.len() as int);
        }
        num_flags = num_flags + packages[k].boolean_flags.len() as u32;
        k = k + 1;
    }

    let mut is_flag_rw: Vec<bool> = vec![false; num_flags as usize];
    let mut k: usize = 0;
    while k < np
        invariant
            k <= np,
            np == packages@.len(),
            pkgs == packages@.map_values(|p: FlagPackage| p@),
            grouped_wf(pkgs),
            total == spec_count_upto(pkgs, pkgs.len() as int),
            total <= u32::MAX,
            num_flags == total,
            is_flag_rw@.len() == total,
            forall|k2: int|
                0 <= k2 < k ==> (#[trigger] pkgs[k2].boolean_flags.len()) <= 65536,
            forall|k2: int, j: int|
                0 <= k2 < k && spec_distinct_flag_names(#[trigger] pkgs[k2]) && 0 <= j < pkgs[
                    k2
                ].boolean_flags.len() ==> is_flag_rw@[pkgs[k2].boolean_start_index + j] == ((
                #[trigger] pkgs[k2].boolean_flags[j]).permission == FlagPermission::ReadWrite),
        decreases np - k,
    {
        proof {
            lemma_count_upto_monotone(pkgs, k as int + 1, pkgs.len() as int);
            assert(pkgs[k as int].boolean_start_index == spec_count_upto(pkgs, k as int));
        }
        let pkg = &packages[k];
        proof {
            assert(pkg@ == pkgs[k as int]);
            assert forall|j2: int| 0 <= j2 < pkg.boolean_flags@.len() implies (
            #[trigger] pkg.boolean_flags@[j2])@.package == pkg.package_name@ by {
                assert(pkgs[k as int].boolean_flags[j2].package == pkgs[
                    k as int
                ].package_name);
            }
        }
        let start_index = pkg.boolean_start_index as usize;
        let flag_ids = match assign_flag_ids(pkg.package_name.as_str(), &pkg.boolean_flags) {
            Ok(m) => m,
            Err(e) => {
                proof {
                    assert(pkgs[k as int].boolean_flags.len() > 65536);
                }
                return Err(e);
            },
        };
        let nf = pkg.boolean_flags.len();
        let mut j: usize = 0;
        while j < nf
            invariant
                j <= nf,
                k < np,
                np == packages@.len(),
                pkgs == packages@.map_values(|p: FlagPackage| p@),
                grouped_wf(pkgs),
                total == spec_count_upto(pkgs, pkgs.len() as int),
                total <= u32::MAX,
                is_flag_rw@.len() == total,
                pkg@ == pkgs[k as int],
                nf == pkgs[k as int].boolean_flags.len(),
                nf <= 65536,
                start_index == pkgs[k as int].boolean_start_index,
                start_index as int + nf <= total,
                flag_ids@.len() == nf,
                forall|j2: int|
                    #![trigger flag_ids@[j2]]
                    0 <= j2 < nf ==> flag_ids@[j2].name@ == pkgs[k as int].boolean_flags[j2].name
                        && flag_ids@[j2].id == j2,
                forall|k2: int|
                    0 <= k2 < k ==> (#[trigger] pkgs[k2].boolean_flags.len()) <= 65536,
                forall|k2: int, j2: int|
                    0 <= k2 < k && spec_distinct_flag_names(#[trigger] pkgs[k2]) && 0 <= j2 < pkgs[
                        k2
                    ].boolean_flags.len() ==> is_flag_rw@[pkgs[k2].boolean_start_index + j2] == ((
                    #[trigger] pkgs[k2].boolean_flags[j2]).permission
                        == FlagPermission::ReadWrite),
                spec_distinct_flag_names(pkgs[k as int]) ==> forall|j2: int|
                    0 <= j2 < j ==> is_flag_rw@[start_index + j2] == ((#[trigger] pkgs[
                        k as int
                    ].boolean_flags[j2]).permission == FlagPermission::ReadWrite),
            decreases nf - j,
        {
            let pf = &pkg.boolean_flags[j];
            let fid = match find_flag_id(&flag_ids, pf.name.as_str()) {
                Some(id) => id,
                None => {
                    proof {
                        assert(flag_ids@[j as int].name@ == pkgs[k as int].boolean_flags[
                            j as int
                        ].name);
                        assert(false);
                    }
                    return Err(AconfigStorageError::MissingFlagOffset(pf.name.clone()));
                },
            };
            let is_rw = matches!(pf.permission, FlagPermission::ReadWrite);
            proof {
                let jj = choose|jj: int|
                    0 <= jj < flag_ids@.len() && (#[trigger] flag_ids@[jj].name@) == pf.name@
                        && flag_ids@[jj].id == fid;
                assert(fid < nf);
                if spec_distinct_flag_names(pkgs[k as int]) {
                    assert(pkgs[k as int].boolean_flags[jj].name == pkgs[k as int].boolean_flags[
                        j as int
                    ].name);
                    assert(jj == j as int);
                }
            }
            set_attr(&mut is_flag_rw, start_index + fid as usize, is_rw);
            proof {
                assert forall|k2: int, j2: int|
                    0 <= k2 < k && spec_distinct_flag_names(#[trigger] pkgs[k2]) && 0 <= j2
                        < pkgs[k2].boolean_flags.len() implies is_flag_rw@[pkgs[
                    k2
                ].boolean_start_index + j2] == ((#[trigger] pkgs[k2].boolean_flags[
                    j2
                ]).permission == FlagPermission::ReadWrite) by {
                    lemma_count_upto_monotone(pkgs, k2 + 1, k as int);
                }
            }
            j = j + 1;
        }
        k = k + 1;
    }

    let mut list_nodes: Vec<FlagInfoNode> = Vec::new();
    let mut i: usize = 0;
    let n_total = is_flag_rw.len();
    while i < n_total
        invariant
            i <= n_total,
            n_total == is_flag_rw@.len(),
            list_nodes@.len() == i,
            forall|j2: int|
                0 <= j2 < i ==> (#[trigger] list_nodes@[j2])@ == spec_attributes_of(
                    is_flag_rw@[j2],
                ),
        decreases n_total - i,
    {
        let b: bool = is_flag_rw[i];
        list_nodes.push(FlagInfoNode::create(b));
        i = i + 1;
    }

    let mut header = new_header(container, num_flags);
    let header_bytes_len = header.into_bytes().len() as u32;
    proof {
        lemma_flag_info_header_len(header@);
    }
    header.boolean_flag_offset = header_bytes_len;
    header.file_size = header.boolean_flag_offset + num_flags;
    let r = FlagInfoList { header, nodes: list_nodes };
    proof {
        assert(r@.header == r.header@);
        assert(r@.header.container == container@);
        lemma_flag_info_header_len(r@.header);
        assert forall|k2: int, j2: int|
            0 <= k2 < pkgs.len() && spec_distinct_flag_names(#[trigger] pkgs[k2]) && 0 <= j2
                < pkgs[k2].boolean_flags.len() implies r@.nodes[pkgs[k2].boolean_start_index + j2]
            == spec_attributes_of(
            (#[trigger] pkgs[k2].boolean_flags[j2]).permission == FlagPermission::ReadWrite,
        ) by {
            lemma_count_upto_monotone(pkgs, k2 + 1, pkgs.len() as int);
            assert(is_flag_rw@[pkgs[k2].boolean_start_index + j2] == (pkgs[k2].boolean_flags[
                j2
            ].permission == FlagPermission::ReadWrite));
        }
    }
    Ok(r)
}

} // verus!
