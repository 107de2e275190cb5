//! Cross-joins the three storage files of one container: every flag of
//! the flag map, with its package name resolved through the package map
//! and its boolean value read from the flag value list.

use vstd::prelude::*;
use crate::package_map::{PackageTable, PackageTableNode, PackageTableNodeSpec, PackageTableSpec};
use crate::flag_map::{FlagTable, FlagTableSpec, StoredFlagType};
use crate::flag_value::{FlagValueList, FlagValueListSpec};
use crate::{AconfigStorageError, FILE_VERSION};

verus! {

/// Mathematical model of one listed flag.
pub ghost struct ListedFlagSpec {
    pub package_name: Seq<char>,
    pub flag_name: Seq<char>,
    pub flag_type: StoredFlagType,
    pub flag_value: bool,
}

/// One row of the flag listing: package, flag, stored type, value.
#[derive(Debug, PartialEq, Eq)]
pub struct ListedFlag {
    pub package_name: String,
    pub flag_name: String,
    pub flag_type: StoredFlagType,
    pub flag_value: bool,
}

impl View for ListedFlag {
    type V = ListedFlagSpec;

    open spec fn view(&self) -> ListedFlagSpec {
        ListedFlagSpec {
            package_name: self.package_name@,
            flag_name: self.flag_name@,
            flag_type: self.flag_type,
            flag_value: self.flag_value,
        }
    }
}

/// The package node a package id resolves to: the last node carrying
/// that id.
pub open spec fn spec_last_package(nodes: Seq<PackageTableNodeSpec>, id: u32) -> Option<
    PackageTableNodeSpec,
>
    decreases nodes.len(),
{
    if nodes.len() == 0 {
        None
    } else if nodes.last().package_id == id {
        Some(nodes.last())
    } else {
        spec_last_package(nodes.drop_last(), id)
    }
}

proof fn lemma_last_package_at(nodes: Seq<PackageTableNodeSpec>, id: u32, idx: int)
    requires
        0 <= idx < nodes.len(),
        nodes[idx].package_id == id,
        forall|j: int| idx < j < nodes.len() ==> (#[trigger] nodes[j]).package_id != id,
    ensures
        spec_last_package(nodes, id) == Some(nodes[idx]),
    decreases nodes.len(),
{
    if idx == nodes.len() - 1 {
    } else {
        assert(forall|j: int|
            idx < j < nodes.len() - 1 ==> (#[trigger] nodes.drop_last()[j]).package_id != id);
        lemma_last_package_at(nodes.drop_last(), id, idx);
    }
}

proof fn lemma_last_package_none(nodes: Seq<PackageTableNodeSpec>, id: u32)
    requires
        forall|j: int| 0 <= j < nodes.len() ==> (#[trigger] nodes[j]).package_id != id,
    ensures
        spec_last_package(nodes, id) is None,
    decreases nodes.len(),
{
    if nodes.len() > 0 {
        assert(forall|j: int|
            0 <= j < nodes.len() - 1 ==> (#[trigger] nodes.drop_last()[j]).package_id != id);
        lemma_last_package_none(nodes.drop_last(), id);
    }
}

/// Finds the last package node with this id.
fn find_last_package(nodes: &Vec<PackageTableNode>, id: u32) -> (r: Option<usize>)
    ensures
        ({
            let views = nodes@.map_values(|n: PackageTableNode| n@);
            match r {
                Some(idx) => 0 <= idx < nodes@.len() && spec_last_package(views, id) == Some(
                    views[idx as int],
                ),
                None => spec_last_package(views, id) is None,
            }
        }),
{
    let ghost views = nodes@.map_values(|n: PackageTableNode| n@);
    let n = nodes.len();
    let mut found: Option<usize> = None;
    let mut i: usize = 0;
    while i < n
        invariant
            i <= n,
            n == nodes@.len(),
            views == nodes@.map_values(|n2: PackageTableNode| n2@),
            match found {
                Some(idx) => 0 <= idx < i && views[idx as int].package_id == id && forall|j: int|
                    idx < j < i ==> (#[trigger] views[j]).package_id != id,
                None => forall|j: int| 0 <= j < i ==> (#[trigger] views[j]).package_id != id,
            },
        decreases n - i,
    {
        if nodes[i].package_id == id {
            found = Some(i);
        }
        i = i + 1;
    }
    proof {
        match found {
            Some(idx) => {
                lemma_last_package_at(views, id, idx as int);
            },
            None => {
                lemma_last_package_none(views, id);
            },
        }
    }
    found
}

/// The flag type a stored code below 3 stands for.
pub open spec fn spec_stored_type(v: u16) -> StoredFlagType
    recommends
        v <= 2,
{
    if v == 0 {
        StoredFlagType::ReadWriteBoolean
    } else if v == 1 {
        StoredFlagType::ReadOnlyBoolean
    } else {
        StoredFlagType::FixedReadOnlyBoolean
    }
}

/// The outcome of joining the first `upto` flag map nodes: the rows in
/// layout order, or the error of the first node whose package id
/// resolves nowhere, whose value position lies outside the value list,
/// or whose stored type code is unknown.
pub open spec fn spec_build_rows(
    pt: PackageTableSpec,
    ft: FlagTableSpec,
    fv: FlagValueListSpec,
    upto: nat,
) -> Result<Seq<ListedFlagSpec>, AconfigStorageError>
    recommends
        upto <= ft.nodes.len(),
    decreases upto,
{
    if upto == 0 {
        Ok(Seq::empty())
    } else {
        match spec_build_rows(pt, ft, fv, (upto - 1) as nat) {
            Err(e) => Err(e),
            Ok(s) => {
                let node = ft.nodes[upto - 1];
                match spec_last_package(pt.nodes, node.package_id) {
                    None => Err(AconfigStorageError::InvalidStorageFileOffset),
                    Some(p) => {
                        if p.boolean_start_index + node.flag_index >= fv.booleans.len() {
                            Err(AconfigStorageError::InvalidStorageFileOffset)
                        } else if node.flag_type > 2 {
                            Err(AconfigStorageError::BytesParseFail)
                        } else {
                            Ok(
                                s.push(
                                    ListedFlagSpec {
                                        package_name: p.package_name,
                                        flag_name: node.flag_name,
                                        flag_type: spec_stored_type(node.flag_type),
                                        flag_value: fv.booleans[p.boolean_start_index
                                            + node.flag_index],
                                    },
                                ),
                            )
                        }
                    },
                }
            },
        }
    }
}

/// The first failing node's error survives to every longer join.
pub proof fn lemma_build_rows_err(
    pt: PackageTableSpec,
    ft: FlagTableSpec,
    fv: FlagValueListSpec,
    i: nat,
    j: nat,
)
    requires
        i <= j,
        spec_build_rows(pt, ft, fv, i) is Err,
    ensures
        spec_build_rows(pt, ft, fv, j) == spec_build_rows(pt, ft, fv, i),
    decreases j,
{
    if j > i {
        lemma_build_rows_err(pt, ft, fv, i, (j - 1) as nat);
    }
}

/// Lists every flag of one container from its three storage files.
///
/// Succeeds exactly when all three files decode, none carries a version
/// above `FILE_VERSION`, and every flag map node joins: then the rows
/// are `spec_build_rows` over the whole flag map, in layout order. A
/// file that does not decode fails with the parse error; a file with a
/// higher version fails with the higher-version error carrying it; an
/// unresolvable package id or an out-of-range value position fails with
/// the out-of-range error; an unknown stored type code fails with the
/// parse error.
pub fn list_flags(package_map: &[u8], flag_map: &[u8], flag_val: &[u8]) -> (r: Result<
    Vec<ListedFlag>,
    AconfigStorageError,
>)
    ensures
        match PackageTableSpec::spec_from_bytes(package_map@) {
            None => r == Err::<Vec<ListedFlag>, AconfigStorageError>(
                AconfigStorageError::BytesParseFail,
            ),
            Some(pt) => {
                if pt.header.version > FILE_VERSION {
                    r == Err::<Vec<ListedFlag>, AconfigStorageError>(
                        AconfigStorageError::HigherStorageFileVersion(pt.header.version),
                    )
                } else {
                    match FlagTableSpec::spec_from_bytes(flag_map@) {
                        None => r == Err::<Vec<ListedFlag>, AconfigStorageError>(
                            AconfigStorageError::BytesParseFail,
                        ),
                        Some(ft) => {
                            if ft.header.version > FILE_VERSION {
                                r == Err::<Vec<ListedFlag>, AconfigStorageError>(
                                    AconfigStorageError::HigherStorageFileVersion(
                                        ft.header.version,
                                    ),
                                )
                            } else {
                                match FlagValueListSpec::spec_from_bytes(flag_val@) {
                                    None => r == Err::<Vec<ListedFlag>, AconfigStorageError>(
                                        AconfigStorageError::BytesParseFail,
                                    ),
                                    Some(fv) => {
                                        if fv.header.version > FILE_VERSION {
                                            r == Err::<Vec<ListedFlag>, AconfigStorageError>(
                                                AconfigStorageError::HigherStorageFileVersion(
                                                    fv.header.version,
                                                ),
                                            )
                                        } else {
                                            match spec_build_rows(
                                                pt,
                                                ft,
                                                fv,
                                                ft.nodes.len() as nat,
                                            ) {
                                                Ok(s) => r matches Ok(rows) && rows@.map_values(
                                                    |x: ListedFlag| x@,
                                                ) == s,
                                                Err(e) => r == Err::<
                                                    Vec<ListedFlag>,
                                                    AconfigStorageError,
                                                >(e),
                                            }
                                        }
                                    },
                                }
                            }
                        },
                    }
                }
            },
        },
{
    let package_table = match PackageTable::from_bytes(package_map) {
        Ok(v) => v,
        Err(e) => {
            return Err(e);
        },
    };
    if package_table.header.version > FILE_VERSION {
        return Err(AconfigStorageError::HigherStorageFileVersion(package_table.header.version));
    }
    let flag_table = match FlagTable::from_bytes(flag_map) {
        Ok(v) => v,
        Err(e) => {
            return Err(e);
        },
    };
    if flag_table.header.version > FILE_VERSION {
        return Err(AconfigStorageError::HigherStorageFileVersion(flag_table.header.version));
    }
    let flag_value_list = match FlagValueList::from_bytes(flag_val) {
        Ok(v) => v,
        Err(e) => {
            return Err(e);
        },
    };
    if flag_value_list.header.version > FILE_VERSION {
        return Err(
            AconfigStorageError::HigherStorageFileVersion(flag_value_list.header.version),
        );
    }
    let ghost pt = package_table@;
    let ghost ft = flag_table@;
    let ghost fv = flag_value_list@;
    let mut rows: Vec<ListedFlag> = Vec::new();
    let n = flag_table.nodes.len();
    let mut i: usize = 0;
    proof {
        assert(rows@.map_values(|x: ListedFlag| x@) =~= Seq::<ListedFlagSpec>::empty());
    }
    while i < n
        invariant
            i <= n,
            n == flag_table.nodes@.len(),
            pt == package_table@,
            ft == flag_table@,
            fv == flag_value_list@,
            PackageTableSpec::spec_from_bytes(package_map@) == Some(pt),
            FlagTableSpec::spec_from_bytes(flag_map@) == Some(ft),
            FlagValueListSpec::spec_from_bytes(flag_val@) == Some(fv),
            pt.header.version <= FILE_VERSION,
            ft.header.version <= FILE_VERSION,
            fv.header.version <= FILE_VERSION,
            n == ft.nodes.len(),
            spec_build_rows(pt, ft, fv, i as nat) == Ok::<
                Seq<ListedFlagSpec>,
                AconfigStorageError,
            >(rows@.map_values(|x: ListedFlag| x@)),
        decreases n - i,
    {
        let node = &flag_table.nodes[i];
        proof {
            assert(node@ == ft.nodes[i as int]);
        }
        let pkg_idx = match find_last_package(&package_table.nodes, node.package_id) {
            Some(idx) => idx,
            None => {
                proof {
                    assert(spec_build_rows(pt, ft, fv, (i + 1) as nat) == Err::<
                        Seq<ListedFlagSpec>,
                        AconfigStorageError,
                    >(AconfigStorageError::InvalidStorageFileOffset));
                    lemma_build_rows_err(pt, ft, fv, (i + 1) as nat, ft.nodes.len() as nat);
                }
                return Err(AconfigStorageError::InvalidStorageFileOffset);
            },
        };
        let pkg = &package_table.nodes[pkg_idx];
        let value_index: u64 = pkg.boolean_start_index as u64 + node.flag_index as u64;
        if value_index >= flag_value_list.booleans.len() as u64 {
            proof {
                assert(spec_build_rows(pt, ft, fv, (i + 1) as nat) == Err::<
                    Seq<ListedFlagSpec>,
                    AconfigStorageError,
                >(AconfigStorageError::InvalidStorageFileOffset));
                lemma_build_rows_err(pt, ft, fv, (i + 1) as nat, ft.nodes.len() as nat);
            }
            return Err(AconfigStorageError::InvalidStorageFileOffset);
        }
        let flag_type = match StoredFlagType::from_code(node.flag_type) {
            Some(t) => t,
            None => {
                proof {
                    assert(spec_build_rows(pt, ft, fv, (i + 1) as nat) == Err::<
                        Seq<ListedFlagSpec>,
                        AconfigStorageError,
                    >(AconfigStorageError::BytesParseFail));
                    lemma_build_rows_err(pt, ft, fv, (i + 1) as nat, ft.nodes.len() as nat);
                }
                return Err(AconfigStorageError::BytesParseFail);
            },
        };
        let flag_value: bool = flag_value_list.booleans[value_index as usize];
        let ghost rows_pre = rows@.map_values(|x: ListedFlag| x@);
        let row = ListedFlag {
            package_name: pkg.package_name.clone(),
            flag_name: node.flag_name.clone(),
            flag_type,
            flag_value,
        };
        let ghost rv = row@;
        proof {
            assert(pkg@ == pt.nodes[pkg_idx as int]);
            assert(spec_last_package(pt.nodes, ft.nodes[i as int].package_id) == Some(pkg@));
            assert(flag_type == spec_stored_type(ft.nodes[i as int].flag_type));
            assert(rv == (ListedFlagSpec {
                package_name: pkg@.package_name,
                flag_name: ft.nodes[i as int].flag_name,
                flag_type: spec_stored_type(ft.nodes[i as int].flag_type),
                flag_value: fv.booleans[pkg@.boolean_start_index + ft.nodes[
                    i as int
                ].flag_index],
            }));
        }
        rows.push(row);
        proof {
            assert(rows@.map_values(|x: ListedFlag| x@) =~= rows_pre.push(rv));
            assert(spec_build_rows(pt, ft, fv, (i + 1) as nat) == Ok::<
                Seq<ListedFlagSpec>,
                AconfigStorageError,
            >(rows_pre.push(rv)));
        }
        i = i + 1;
    }
    Ok(rows)
}

} // verus!
