//! Build-time model of parsed flag definitions: grouping flags by
//! package, assigning local flag ids, and resolving a flag's offset
//! under the read-only/disabled exemption.

use vstd::prelude::*;
use crate::{str_eq, AconfigStorageError};

verus! {

/// Whether a flag may change at runtime.
#[derive(Clone, Copy, Debug, PartialEq, Eq, Structural)]
pub enum FlagPermission {
    ReadOnly,
    ReadWrite,
}

/// A flag's build-time default state.
#[derive(Clone, Copy, Debug, PartialEq, Eq, Structural)]
pub enum FlagState {
    Enabled,
    Disabled,
}

/// Mathematical model of a parsed flag definition.
pub ghost struct ParsedFlagSpec {
    pub package: Seq<char>,
    pub name: Seq<char>,
    pub container: Seq<char>,
    pub permission: FlagPermission,
    pub state: FlagState,
}

/// One flag definition as the build step sees it.
#[derive(Debug, PartialEq, Eq)]
pub struct ParsedFlag {
    pub package: String,
    pub name: String,
    pub container: String,
    pub permission: FlagPermission,
    pub state: FlagState,
}

impl View for ParsedFlag {
    type V = ParsedFlagSpec;

    open spec fn view(&self) -> ParsedFlagSpec {
        ParsedFlagSpec {
            package: self.package@,
            name: self.name@,
            container: self.container@,
            permission: self.permission,
            state: self.state,
        }
    }
}

/// Mathematical model of a package grouping.
pub ghost struct FlagPackageSpec {
    pub package_name: Seq<char>,
    pub package_id: u32,
    pub boolean_start_index: u32,
    pub boolean_flags: Seq<ParsedFlagSpec>,
}

/// A package: its numeric id, its contiguous range of boolean indexes
/// (starting at `boolean_start_index`), and its flags in input order.
#[derive(Debug, PartialEq, Eq)]
pub struct FlagPackage {
    pub package_name: String,
    pub package_id: u32,
    pub boolean_start_index: u32,
    pub boolean_flags: Vec<ParsedFlag>,
}

impl View for FlagPackage {
    type V = FlagPackageSpec;

    open spec fn view(&self) -> FlagPackageSpec {
        FlagPackageSpec {
            package_name: self.package_name@,
            package_id: self.package_id,
            boolean_start_index: self.boolean_start_index,
            boolean_flags: self.boolean_flags@.map_values(|f: ParsedFlag| f@),
        }
    }
}

/// The number of boolean flags held by the first `k` packages.
pub open spec fn spec_count_upto(pkgs: Seq<FlagPackageSpec>, k: int) -> int
    decreases k,
{
    if k <= 0 {
        0
    } else {
        spec_count_upto(pkgs, k - 1) + pkgs[k - 1].boolean_flags.len()
    }
}

/// Counting only looks at the first `k` packages.
pub proof fn lemma_count_upto_prefix(p1: Seq<FlagPackageSpec>, p2: Seq<FlagPackageSpec>, k: int)
    requires
        0 <= k <= p1.len(),
        k <= p2.len(),
        forall|j: int| 0 <= j < k ==> p1[j].boolean_flags.len() == p2[j].boolean_flags.len(),
    ensures
        spec_count_upto(p1, k) == spec_count_upto(p2, k),
    decreases k,
{
    if k > 0 {
        lemma_count_upto_prefix(p1, p2, k - 1);
    }
}

/// Prefix counts are monotone.
pub proof fn lemma_count_upto_monotone(pkgs: Seq<FlagPackageSpec>, j: int, k: int)
    requires
        0 <= j <= k,
    ensures
        spec_count_upto(pkgs, j) <= spec_count_upto(pkgs, k),
    decreases k,
{
    if j < k {
        lemma_count_upto_monotone(pkgs, j, k - 1);
    }
}

/// The flags that belong to one package, in input order.
pub open spec fn spec_package_members(flags: Seq<ParsedFlagSpec>, name: Seq<char>) -> Seq<
    ParsedFlagSpec,
> {
    flags.filter(|f: ParsedFlagSpec| f.package == name)
}

/// A package nothing mentions has no members.
proof fn lemma_members_empty(flags: Seq<ParsedFlagSpec>, name: Seq<char>)
    requires
        forall|j: int| 0 <= j < flags.len() ==> (#[trigger] flags[j]).package != name,
    ensures
        spec_package_members(flags, name) =~= Seq::<ParsedFlagSpec>::empty(),
    decreases flags.len(),
{
    reveal(Seq::filter);
    if flags.len() > 0 {
        assert(forall|j: int|
            0 <= j < flags.len() - 1 ==> (#[trigger] flags.drop_last()[j]).package != name);
        lemma_members_empty(flags.drop_last(), name);
        assert(spec_package_members(flags, name) == spec_package_members(
            flags.drop_last(),
            name,
        ));
    }
}

/// The well-formedness that grouping establishes: ids are positions,
/// start indexes are prefix counts, every flag sits in its package, and
/// package names are distinct.
pub open spec fn grouped_wf(pkgs: Seq<FlagPackageSpec>) -> bool {
    &&& forall|k: int| 0 <= k < pkgs.len() ==> #[trigger] pkgs[k].package_id == k
    &&& forall|k: int|
        0 <= k < pkgs.len() ==> #[trigger] pkgs[k].boolean_start_index == spec_count_upto(pkgs, k)
    &&& forall|k: int, j: int|
        0 <= k < pkgs.len() && 0 <= j < pkgs[k].boolean_flags.len()
            ==> #[trigger] pkgs[k].boolean_flags[j].package == pkgs[k].package_name
    &&& forall|k1: int, k2: int|
        0 <= k1 < k2 < pkgs.len() ==> #[trigger] pkgs[k1].package_name != #[trigger] pkgs[k2].package_name
}

/// Finds the package with the given name, if one exists.
fn find_package_index(packages: &Vec<FlagPackage>, name: &str) -> (r: Option<usize>)
    ensures
        r matches Some(idx) ==> 0 <= idx < packages@.len() && packages@[idx as int]@.package_name
            == name@,
        r is None ==> forall|k: int|
            0 <= k < packages@.len() ==> #[trigger] packages@[k]@.package_name != name@,
{
    let n = packages.len();
    let mut idx: usize = 0;
    while idx < n
        invariant
            idx <= n,
            n == packages@.len(),
            forall|k: int| 0 <= k < idx ==> #[trigger] packages@[k]@.package_name != name@,
        decreases n - idx,
    {
        if str_eq(packages[idx].package_name.as_str(), name) {
            return Some(idx);
        }
        idx = idx + 1;
    }
    None
}

/// Groups flags by package in first-seen order, assigns each package its
/// id and the start of its contiguous boolean index range. Each package
/// holds exactly the input flags naming it, in input order.
#[verifier::rlimit(60)]
pub fn group_flags_by_package(flags: Vec<ParsedFlag>) -> (r: Vec<FlagPackage>)
    requires
        flags@.len() <= u32::MAX,
    ensures
        grouped_wf(r@.map_values(|p: FlagPackage| p@)),
        spec_count_upto(r@.map_values(|p: FlagPackage| p@), r@.len() as int) == flags@.len(),
        forall|k: int|
            0 <= k < r@.len() ==> (#[trigger] r@[k]@.boolean_flags) == spec_package_members(
                flags@.map_values(|f: ParsedFlag| f@),
                r@[k]@.package_name,
            ),
{
    let ghost total: int = flags@.len() as int;
    let ghost fv = flags@.map_values(|f: ParsedFlag| f@);
    let mut packages: Vec<FlagPackage> = Vec::new();
    let mut remaining = flags;
    proof {
        assert(remaining@.map_values(|f: ParsedFlag| f@) =~= fv.subrange(
            total - remaining@.len(),
            total,
        ));
    }
    while remaining.len() > 0
        invariant
            spec_count_upto(
                packages@.map_values(|p: FlagPackage| p@),
                packages@.len() as int,
            ) + remaining@.len() == total,
            packages@.len() + remaining@.len() <= total,
            total <= u32::MAX,
            total == fv.len(),
            remaining@.len() <= total,
            remaining@.map_values(|f: ParsedFlag| f@) == fv.subrange(
                total - remaining@.len(),
                total,
            ),
            forall|k: int|
                0 <= k < packages@.len() ==> #[trigger] packages@[k]@.package_id == k,
            forall|k: int|
                0 <= k < packages@.len() ==> #[trigger] packages@[k]@.boolean_start_index == 0,
            forall|k: int|
                0 <= k < packages@.len() ==> #[trigger] packages@[k]@.boolean_flags
                    == spec_package_members(
                    fv.subrange(0, total - remaining@.len()),
                    packages@[k]@.package_name,
                ),
            forall|j: int|
                0 <= j < total - remaining@.len() ==> exists|k: int|
                    0 <= k < packages@.len() && (#[trigger] packages@[k]@.package_name) == (
                    #[trigger] fv[j]).package,
            forall|k: int, j: int|
                0 <= k < packages@.len() && 0 <= j < packages@[k]@.boolean_flags.len()
                    ==> #[trigger] packages@[k]@.boolean_flags[j].package
                    == packages@[k]@.package_name,
            forall|k1: int, k2: int|
                0 <= k1 < k2 < packages@.len() ==> #[trigger] packages@[k1]@.package_name
                    != #[trigger] packages@[k2]@.package_name,
        decreases remaining@.len(),
    {
        let ghost pkgs_pre = packages@.map_values(|p: FlagPackage| p@);
        let ghost t: int = total - remaining@.len();
        let ghost rem_pre = remaining@;
        let f = remaining.remove(0);
        proof {
            reveal(Seq::filter);
            assert(rem_pre.map_values(|f2: ParsedFlag| f2@) == fv.subrange(t, total));
            assert(f@ == rem_pre.map_values(|f2: ParsedFlag| f2@)[0]);
            assert(f@ == fv[t]);
            assert forall|x: int| 0 <= x < remaining@.len() implies remaining@.map_values(
                |f2: ParsedFlag| f2@,
            )[x] == #[trigger] fv.subrange(t + 1, total)[x] by {
                assert(remaining@[x] == rem_pre[x + 1]);
                assert(rem_pre.map_values(|f2: ParsedFlag| f2@)[x + 1] == rem_pre[x + 1]@);
            }
            assert(remaining@.map_values(|f2: ParsedFlag| f2@) =~= fv.subrange(t + 1, total));
            assert(fv.subrange(0, t + 1).drop_last() =~= fv.subrange(0, t));
            assert(fv.subrange(0, t + 1).last() == fv[t]);
            assert forall|j: int| 0 <= j < t implies exists|k: int|
                0 <= k < pkgs_pre.len() && (#[trigger] pkgs_pre[k].package_name) == (
                #[trigger] fv[j]).package by {
                let k0 = choose|k: int|
                    0 <= k < packages@.len() && (#[trigger] packages@[k]@.package_name) == fv[
                        j
                    ].package;
                assert(pkgs_pre[k0] == packages@[k0]@);
                assert(pkgs_pre[k0].package_name == fv[j].package);
            }
        }
        let n = packages.len();
        let found = find_package_index(&packages, f.package.as_str());
        if let Some(idx) = found {
            let mut p = packages.remove(idx);
            p.boolean_flags.push(f);
            packages.insert(idx, p);
            proof {
                reveal(Seq::filter);
                let pkgs_post = packages@.map_values(|p: FlagPackage| p@);
                assert(pkgs_post.len() == pkgs_pre.len());
                assert(forall|k: int|
                    0 <= k < pkgs_pre.len() && k != idx ==> pkgs_post[k] == pkgs_pre[k]);
                assert(pkgs_post[idx as int].boolean_flags =~= pkgs_pre[
                    idx as int
                ].boolean_flags.push(fv[t]));
                assert(pkgs_post[idx as int].package_id == pkgs_pre[idx as int].package_id);
                assert(pkgs_post[idx as int].package_name == pkgs_pre[idx as int].package_name);
                assert(pkgs_post[idx as int].boolean_start_index == pkgs_pre[
                    idx as int
                ].boolean_start_index);
                assert(fv[t].package == pkgs_post[idx as int].package_name);
                lemma_count_upto_update(pkgs_pre, pkgs_post, idx as int, pkgs_pre.len() as int);
                assert forall|k: int| 0 <= k < pkgs_post.len() implies #[trigger] pkgs_post[
                    k
                ].boolean_flags == spec_package_members(
                    fv.subrange(0, t + 1),
                    pkgs_post[k].package_name,
                ) by {
                    if k == idx {
                        assert(spec_package_members(fv.subrange(0, t + 1), pkgs_post[k].package_name)
                            == spec_package_members(fv.subrange(0, t), pkgs_post[k].package_name)
                            .push(fv[t]));
                    } else {
                        assert(pkgs_post[k].package_name != fv[t].package);
                        assert(spec_package_members(fv.subrange(0, t + 1), pkgs_post[k].package_name)
                            == spec_package_members(
                            fv.subrange(0, t),
                            pkgs_post[k].package_name,
                        ));
                    }
                }
                assert forall|j: int| 0 <= j < t + 1 implies exists|k: int|
                    0 <= k < pkgs_post.len() && (#[trigger] pkgs_post[k].package_name) == (
                    #[trigger] fv[j]).package by {
                    if j == t {
                        assert(pkgs_post[idx as int].package_name == fv[t].package);
                    } else {
                        let k0 = choose|k: int|
                            0 <= k < pkgs_pre.len() && (#[trigger] pkgs_pre[k].package_name)
                                == fv[j].package;
                        assert(pkgs_post[k0] == pkgs_pre[k0]
                            || k0 == idx as int && pkgs_post[k0].package_name == pkgs_pre[
                            k0
                        ].package_name);
                        assert(pkgs_post[k0].package_name == fv[j].package);
                    }
                }
            }
        } else {
            let name = f.package.clone();
            let mut bf: Vec<ParsedFlag> = Vec::new();
            bf.push(f);
            let p = FlagPackage {
                package_name: name,
                package_id: n as u32,
                boolean_start_index: 0,
                boolean_flags: bf,
            };
            packages.push(p);
            proof {
                reveal(Seq::filter);
                let pkgs_post = packages@.map_values(|p: FlagPackage| p@);
                assert(forall|k: int| 0 <= k < pkgs_pre.len() ==> pkgs_post[k] == pkgs_pre[k]);
                assert(pkgs_post[pkgs_pre.len() as int].package_id == pkgs_pre.len());
                assert(pkgs_post[pkgs_pre.len() as int].boolean_start_index == 0);
                assert(pkgs_post[pkgs_pre.len() as int].boolean_flags =~= Seq::<
                    ParsedFlagSpec,
                >::empty().push(fv[t]));
                assert(pkgs_post[pkgs_pre.len() as int].boolean_flags[0].package == pkgs_post[
                    pkgs_pre.len() as int
                ].package_name);
                assert(forall|k: int|
                    0 <= k < pkgs_pre.len() ==> #[trigger] pkgs_post[k].package_name != pkgs_post[
                        pkgs_pre.len() as int
                    ].package_name);
                lemma_count_upto_prefix(pkgs_post, pkgs_pre, pkgs_pre.len() as int);
                assert(spec_count_upto(pkgs_post, pkgs_post.len() as int) == spec_count_upto(
                    pkgs_pre,
                    pkgs_pre.len() as int,
                ) + 1);
                let newname = pkgs_post[pkgs_pre.len() as int].package_name;
                assert(newname == fv[t].package);
                assert forall|j: int| 0 <= j < t implies (#[trigger] fv[j]).package
                    != newname by {
                    let k0 = choose|k0: int|
                        0 <= k0 < pkgs_pre.len() && (#[trigger] pkgs_pre[k0].package_name) == fv[
                            j
                        ].package;
                    assert(pkgs_pre[k0].package_name != newname);
                }
                assert forall|j: int| 0 <= j < t + 1 implies exists|k: int|
                    0 <= k < pkgs_post.len() && (#[trigger] pkgs_post[k].package_name) == (
                    #[trigger] fv[j]).package by {
                    if j == t {
                        assert(pkgs_post[pkgs_pre.len() as int].package_name == fv[t].package);
                    } else {
                        let k0 = choose|k0: int|
                            0 <= k0 < pkgs_pre.len() && (#[trigger] pkgs_pre[k0].package_name)
                                == fv[j].package;
                        assert(pkgs_post[k0].package_name == fv[j].package);
                    }
                }
                assert(forall|j: int|
                    0 <= j < t ==> (#[trigger] fv.subrange(0, t)[j]).package != newname);
                lemma_members_empty(fv.subrange(0, t), newname);
                assert forall|k: int| 0 <= k < pkgs_post.len() implies #[trigger] pkgs_post[
                    k
                ].boolean_flags == spec_package_members(
                    fv.subrange(0, t + 1),
                    pkgs_post[k].package_name,
                ) by {
                    if k == pkgs_pre.len() {
                        assert(spec_package_members(fv.subrange(0, t + 1), newname)
                            == spec_package_members(fv.subrange(0, t), newname).push(fv[t]));
                        assert(spec_package_members(fv.subrange(0, t + 1), newname) =~= Seq::<
                            ParsedFlagSpec,
                        >::empty().push(fv[t]));
                    } else {
                        assert(pkgs_post[k].package_name != fv[t].package);
                        assert(spec_package_members(fv.subrange(0, t + 1), pkgs_post[k].package_name)
                            == spec_package_members(
                            fv.subrange(0, t),
                            pkgs_post[k].package_name,
                        ));
                    }
                }
            }
        }
    }
    proof {
        assert(fv.subrange(0, total) =~= fv);
    }
    let m = packages.len();
    let mut offset: u32 = 0;
    let mut i: usize = 0;
    proof {
        assert(spec_count_upto(
            packages@.map_values(|p: FlagPackage| p@),
            packages@.len() as int,
        ) == total);
    }
    while i < m
        invariant
            i <= m,
            m == packages@.len(),
            total <= u32::MAX,
            spec_count_upto(packages@.map_values(|p: FlagPackage| p@), m as int) == total,
            offset == spec_count_upto(packages@.map_values(|p: FlagPackage| p@), i as int),
            forall|k: int|
                0 <= k < packages@.len() ==> #[trigger] packages@[k]@.package_id == k,
            forall|k: int|
                0 <= k < i ==> #[trigger] packages@[k]@.boolean_start_index == spec_count_upto(
                    packages@.map_values(|p: FlagPackage| p@),
                    k,
                ),
            forall|k: int|
                0 <= k < packages@.len() ==> #[trigger] packages@[k]@.boolean_flags
                    == spec_package_members(fv, packages@[k]@.package_name),
            forall|k: int, j: int|
                0 <= k < packages@.len() && 0 <= j < packages@[k]@.boolean_flags.len()
                    ==> #[trigger] packages@[k]@.boolean_flags[j].package
                    == packages@[k]@.package_name,
            forall|k1: int, k2: int|
                0 <= k1 < k2 < packages@.len() ==> #[trigger] packages@[k1]@.package_name
                    != #[trigger] packages@[k2]@.package_name,
        decreases m - i,
    {
        let ghost pkgs_pre = packages@.map_values(|p: FlagPackage| p@);
        proof {
            lemma_count_upto_monotone(pkgs_pre, i as int + 1, m as int);
        }
        let mut p = packages.remove(i);
        let flags_in_p = p.boolean_flags.len();
        p.boolean_start_index = offset;
        packages.insert(i, p);
        proof {
            let pkgs_post = packages@.map_values(|p: FlagPackage| p@);
            assert(forall|k: int|
                0 <= k < pkgs_pre.len() ==> #[trigger] pkgs_post[k].boolean_flags
                    =~= pkgs_pre[k].boolean_flags && pkgs_post[k].package_id == pkgs_pre[
                    k
                ].package_id && pkgs_post[k].package_name == pkgs_pre[k].package_name);
            assert(forall|k: int|
                0 <= k < pkgs_pre.len() && k != i ==> pkgs_post[k] == pkgs_pre[k]);
            assert forall|k: int| 0 <= k <= pkgs_pre.len() implies spec_count_upto(pkgs_post, k)
                == spec_count_upto(pkgs_pre, k) by {
                lemma_count_upto_prefix(pkgs_post, pkgs_pre, k);
            }
        }
        offset = offset + flags_in_p as u32;
        i = i + 1;
    }
    packages
}

/// Changing one package without changing its flag count leaves every
/// prefix count unchanged; growing its flags by one grows the counts
/// beyond it by one.
proof fn lemma_count_upto_update(
    p1: Seq<FlagPackageSpec>,
    p2: Seq<FlagPackageSpec>,
    idx: int,
    k: int,
)
    requires
        0 <= idx < p1.len(),
        p1.len() <= p2.len(),
        0 <= k <= p1.len(),
        forall|j: int| 0 <= j < p1.len() && j != idx ==> p2[j] == p1[j],
        p2[idx].boolean_flags.len() == p1[idx].boolean_flags.len() + 1,
    ensures
        spec_count_upto(p2, k) == spec_count_upto(p1, k) + if k > idx {
            1int
        } else {
            0int
        },
    decreases k,
{
    if k > 0 {
        lemma_count_upto_update(p1, p2, idx, k - 1);
    }
}

/// The exemption of spec 4.4: a read-only, disabled flag on a system,
/// vendor or product container needs no storage slot.
pub open spec fn spec_exempt_from_offset(
    container: Seq<char>,
    permission: FlagPermission,
    state: FlagState,
) -> bool {
    (container == "system"@ || container == "vendor"@ || container == "product"@) && permission
        == FlagPermission::ReadOnly && state == FlagState::Disabled
}

/// Resolves the storage offset of one flag from the id map's answer.
///
/// A flag with an assigned offset keeps it. A flag without one is given
/// the placeholder offset 0 when it is exempt (read-only, disabled, on a
/// system/vendor/product container); otherwise the absence is a fatal
/// build error naming the flag.
pub fn resolve_flag_offset(
    container: &str,
    name: &str,
    permission: FlagPermission,
    state: FlagState,
    assigned: Option<u16>,
) -> (r: Result<u16, AconfigStorageError>)
    ensures
        assigned matches Some(o) ==> r == Ok::<u16, AconfigStorageError>(o),
        assigned is None && spec_exempt_from_offset(container@, permission, state) ==> r == Ok::<
            u16,
            AconfigStorageError,
        >(0),
        assigned is None && !spec_exempt_from_offset(container@, permission, state) ==> (r matches
            Err(e) && e matches AconfigStorageError::MissingFlagOffset(n) && n@ == name@),
{
    match assigned {
        Some(o) => Ok(o),
        None => {
            let exempt = (str_eq(container, "system") || str_eq(container, "vendor") || str_eq(
                container,
                "product",
            )) && matches!(permission, FlagPermission::ReadOnly) && matches!(
                state,
                FlagState::Disabled,
            );
            if exempt {
                Ok(0)
            } else {
                Err(AconfigStorageError::MissingFlagOffset(name.to_owned()))
            }
        },
    }
}

/// One entry of a package's flag id map.
#[derive(Debug, PartialEq, Eq)]
pub struct FlagId {
    pub name: String,
    pub id: u16,
}

/// Assigns local ids to a package's flags in input order.
///
/// Fails when a flag of another package is in the list, or when the
/// package holds more flags than u16 ids exist.
pub fn assign_flag_ids(package: &str, flags: &Vec<ParsedFlag>) -> (r: Result<
    Vec<FlagId>,
    AconfigStorageError,
>)
    ensures
        (forall|j: int| 0 <= j < flags@.len() ==> #[trigger] flags@[j]@.package == package@)
            && flags@.len() <= 65536 <==> r is Ok,
        r matches Ok(m) ==> m@.len() == flags@.len() && forall|j: int|
            #![trigger m@[j]]
            0 <= j < m@.len() ==> m@[j].name@ == flags@[j]@.name && m@[j].id == j,
{
    let n = flags.len();
    if n > 65536 {
        return Err(AconfigStorageError::TooManyFlags);
    }
    let mut result: Vec<FlagId> = Vec::new();
    let mut i: usize = 0;
    while i < n
        invariant
            i <= n,
            n == flags@.len(),
            n <= 65536,
            result@.len() == i,
            forall|j: int| 0 <= j < i ==> #[trigger] flags@[j]@.package == package@,
            forall|j: int|
                #![trigger result@[j]]
                0 <= j < i ==> result@[j].name@ == flags@[j]@.name && result@[j].id == j,
        decreases n - i,
    {
        if !str_eq(flags[i].package.as_str(), package) {
            proof {
                assert(flags@[i as int]@.package != package@);
            }
            return Err(AconfigStorageError::FlagNotInPackage);
        }
        let ghost result_pre = result@;
        result.push(FlagId { name: flags[i].name.clone(), id: i as u16 });
        proof {
            assert(forall|j: int| 0 <= j < i ==> result@[j] == result_pre[j]);
            assert(result@[i as int].name@ == flags@[i as int]@.name);
            assert(result@[i as int].id == i as u16);
            assert forall|j: int| #![trigger result@[j]] 0 <= j < i + 1 implies result@[j].name@
                == flags@[j]@.name && result@[j].id == j by {
                if j < i {
                    assert(result_pre[j].name@ == flags@[j]@.name);
                    assert(result_pre[j].id == j);
                }
            }
        }
        i = i + 1;
    }
    Ok(result)
}

/// Looks a flag's name up in an id map; the first match wins.
pub fn find_flag_id(map: &Vec<FlagId>, name: &str) -> (r: Option<u16>)
    ensures
        r matches Some(id) ==> exists|j: int|
            0 <= j < map@.len() && #[trigger] map@[j].name@ == name@ && map@[j].id == id,
        r is None ==> forall|j: int| 0 <= j < map@.len() ==> #[trigger] map@[j].name@ != name@,
{
    let n = map.len();
    let mut i: usize = 0;
    while i < n
        invariant
            i <= n,
            n == map@.len(),
            forall|j: int| 0 <= j < i ==> #[trigger] map@[j].name@ != name@,
        decreases n - i,
    {
        if str_eq(map[i].name.as_str(), name) {
            return Some(map[i].id);
        }
        i = i + 1;
    }
    None
}

/// Some package's index range contains `off`.
pub open spec fn spec_offset_covered(pkgs: Seq<FlagPackageSpec>, off: int) -> bool {
    exists|k: int|
        0 <= k < pkgs.len() && (#[trigger] pkgs[k].boolean_start_index) <= off < pkgs[
            k
        ].boolean_start_index + pkgs[k].boolean_flags.len()
}

/// Contiguity: the packages' index ranges
/// `[boolean_start_index, boolean_start_index + len)` tile the whole
/// range `[0, total)` with no gap and no overlap.
pub proof fn lemma_contiguity(pkgs: Seq<FlagPackageSpec>, total: int)
    requires
        grouped_wf(pkgs),
        total == spec_count_upto(pkgs, pkgs.len() as int),
    ensures
        forall|off: int| 0 <= off < total ==> #[trigger] spec_offset_covered(pkgs, off),
        forall|k1: int, k2: int|
            0 <= k1 < k2 < pkgs.len() ==> #[trigger] pkgs[k1].boolean_start_index + pkgs[
                k1
            ].boolean_flags.len() <= #[trigger] pkgs[k2].boolean_start_index,
{
    assert forall|off: int| 0 <= off < total implies #[trigger] spec_offset_covered(
        pkgs,
        off,
    ) by {
        lemma_cover(pkgs, pkgs.len() as int, off);
    }
    assert forall|k1: int, k2: int| 0 <= k1 < k2 < pkgs.len() implies #[trigger] pkgs[
        k1
    ].boolean_start_index + pkgs[k1].boolean_flags.len() <= #[trigger] pkgs[
        k2
    ].boolean_start_index by {
        lemma_count_upto_monotone(pkgs, k1 + 1, k2);
    }
}

/// Every offset below the count of the first `k` packages lies in some
/// package's range.
proof fn lemma_cover(pkgs: Seq<FlagPackageSpec>, k: int, off: int)
    requires
        grouped_wf(pkgs),
        0 <= k <= pkgs.len(),
        0 <= off < spec_count_upto(pkgs, k),
    ensures
        exists|j: int|
            0 <= j < k && (#[trigger] pkgs[j].boolean_start_index) <= off < pkgs[
                j
            ].boolean_start_index + pkgs[j].boolean_flags.len(),
    decreases k,
{
    if off >= spec_count_upto(pkgs, k - 1) {
        assert(pkgs[k - 1].boolean_start_index == spec_count_upto(pkgs, k - 1));
        assert(0 <= k - 1 < k && pkgs[k - 1].boolean_start_index <= off < pkgs[
            k - 1
        ].boolean_start_index + pkgs[k - 1].boolean_flags.len());
    } else {
        lemma_cover(pkgs, k - 1, off);
    }
}

} // verus!
