//! The device flag tool's logic: row formatting for the flag listing,
//! and the decision whether and how a flag override may be applied.
//! Reading the device's flags and applying an override are I/O and stay
//! with the caller; these functions work on the flag rows themselves.

use vstd::prelude::*;
use vstd::string::StringExecFns;
use vstd::utf8::encode_utf8;
use crate::str_eq;

verus! {

/// Whether a flag may be written at runtime.
#[derive(Clone, Copy, Debug, PartialEq, Eq, Structural)]
pub enum FlagPermission {
    ReadOnly,
    ReadWrite,
}

/// Where a flag's current value comes from.
#[derive(Clone, Copy, Debug, PartialEq, Eq, Structural)]
pub enum OverrideType {
    Default,
    Server,
}

/// The rendering of a permission.
pub open spec fn spec_permission_str(p: FlagPermission) -> Seq<char> {
    match p {
        FlagPermission::ReadOnly => "read-only"@,
        FlagPermission::ReadWrite => "read-write"@,
    }
}

/// The rendering of an override provenance.
pub open spec fn spec_override_str(o: OverrideType) -> Seq<char> {
    match o {
        OverrideType::Default => "default"@,
        OverrideType::Server => "server"@,
    }
}

impl FlagPermission {
    /// Renders the permission.
    pub fn to_string(&self) -> (r: String)
        ensures
            r@ == spec_permission_str(*self),
    {
        match self {
            FlagPermission::ReadOnly => "read-only".to_owned(),
            FlagPermission::ReadWrite => "read-write".to_owned(),
        }
    }
}

impl OverrideType {
    /// Renders the provenance.
    pub fn to_string(&self) -> (r: String)
        ensures
            r@ == spec_override_str(*self),
    {
        match self {
            OverrideType::Default => "default".to_owned(),
            OverrideType::Server => "server".to_owned(),
        }
    }
}

/// Mathematical model of one flag row.
pub ghost struct FlagSpec {
    pub namespace: Seq<char>,
    pub name: Seq<char>,
    pub package: Seq<char>,
    pub container: Seq<char>,
    pub value: Seq<char>,
    pub permission: FlagPermission,
    pub override_type: OverrideType,
}

/// One flag as the device tool sees it.
#[derive(Debug, PartialEq, Eq)]
pub struct Flag {
    pub namespace: String,
    pub name: String,
    pub package: String,
    pub container: String,
    pub value: String,
    pub permission: FlagPermission,
    pub override_type: OverrideType,
}

impl View for Flag {
    type V = FlagSpec;

    open spec fn view(&self) -> FlagSpec {
        FlagSpec {
            namespace: self.namespace@,
            name: self.name@,
            package: self.package@,
            container: self.container@,
            value: self.value@,
            permission: self.permission,
            override_type: self.override_type,
        }
    }
}

/// Column widths of the flag listing.
pub struct PaddingInfo {
    pub longest_package_col: usize,
    pub longest_name_col: usize,
    pub longest_val_col: usize,
    pub longest_override_type_col: usize,
    pub longest_permission_col: usize,
}

/// `n` spaces.
pub open spec fn spec_spaces(n: int) -> Seq<char>
    decreases n,
{
    if n <= 0 {
        Seq::empty()
    } else {
        spec_spaces(n - 1) + seq![' ']
    }
}

/// A field padded with spaces to `width` bytes (fields are measured in
/// bytes throughout the listing).
pub open spec fn spec_pad(s: Seq<char>, width: int) -> Seq<char> {
    s + spec_spaces(width - encode_utf8(s).len())
}

/// Pads `s` with spaces to `width` bytes.
pub fn pad_str(s: &str, width: usize) -> (r: String)
    requires
        encode_utf8(s@).len() <= usize::MAX,
    ensures
        r@ == spec_pad(s@, width as int),
{
    let mut r = s.to_owned();
    let mut i: usize = s.len();
    proof {
        assert(r@ =~= s@ + spec_spaces(0));
    }
    while i < width
        invariant
            r@ == s@ + spec_spaces(i - encode_utf8(s@).len()),
            i >= encode_utf8(s@).len(),
            i <= width || i == encode_utf8(s@).len(),
        decreases width - i,
    {
        r.append(" ");
        i = i + 1;
        proof {
            reveal_strlit(" ");
            assert(" "@ =~= seq![' ']);
            assert(r@ =~= s@ + spec_spaces(i - encode_utf8(s@).len()));
        }
    }
    proof {
        assert(r@ =~= spec_pad(s@, width as int));
    }
    r
}

/// One row of the listing: each column padded one byte past its
/// longest entry, the container last, a newline at the end.
pub open spec fn spec_flag_row(f: FlagSpec, info_p0: int, info_p1: int, info_p2: int, info_p3: int, info_p4: int) -> Seq<char> {
    spec_pad(f.package, info_p0 + 1) + spec_pad(f.name, info_p1 + 1) + spec_pad(
        f.value,
        info_p2 + 1,
    ) + spec_pad(spec_override_str(f.override_type), info_p3 + 1) + spec_pad(
        spec_permission_str(f.permission),
        info_p4 + 1,
    ) + f.container + "\n"@
}

/// Formats one row of the flag listing.
pub fn format_flag_row(flag: &Flag, info: &PaddingInfo) -> (r: String)
    requires
        info.longest_package_col < usize::MAX,
        info.longest_name_col < usize::MAX,
        info.longest_val_col < usize::MAX,
        info.longest_override_type_col < usize::MAX,
        info.longest_permission_col < usize::MAX,
        encode_utf8(flag@.package).len() <= usize::MAX,
        encode_utf8(flag@.name).len() <= usize::MAX,
        encode_utf8(flag@.value).len() <= usize::MAX,
    ensures
        r@ == spec_flag_row(
            flag@,
            info.longest_package_col as int,
            info.longest_name_col as int,
            info.longest_val_col as int,
            info.longest_override_type_col as int,
            info.longest_permission_col as int,
        ),
{
    proof {
        reveal_strlit("default");
        reveal_strlit("server");
        reveal_strlit("read-only");
        reveal_strlit("read-write");
        vstd::utf8::is_ascii_chars_encode_utf8("default"@);
        vstd::utf8::is_ascii_chars_encode_utf8("server"@);
        vstd::utf8::is_ascii_chars_encode_utf8("read-only"@);
        vstd::utf8::is_ascii_chars_encode_utf8("read-write"@);
    }
    let r = pad_str(flag.package.as_str(), info.longest_package_col + 1).concat(
        pad_str(flag.name.as_str(), info.longest_name_col + 1).as_str(),
    ).concat(pad_str(flag.value.as_str(), info.longest_val_col + 1).as_str()).concat(
        pad_str(
            flag.override_type.to_string().as_str(),
            info.longest_override_type_col + 1,
        ).as_str(),
    ).concat(
        pad_str(flag.permission.to_string().as_str(), info.longest_permission_col + 1).as_str(),
    ).concat(flag.container.as_str()).concat("\n");
    proof {
        assert(r@ =~= spec_flag_row(
            flag@,
            info.longest_package_col as int,
            info.longest_name_col as int,
            info.longest_val_col as int,
            info.longest_override_type_col as int,
            info.longest_permission_col as int,
        ));
    }
    r
}

/// The byte width of the longest entry of each column.
pub open spec fn spec_max_package(fs: Seq<FlagSpec>) -> int
    decreases fs.len(),
{
    if fs.len() == 0 {
        0
    } else {
        let rest = spec_max_package(fs.drop_last());
        let this = encode_utf8(fs.last().package).len() as int;
        if this > rest {
            this
        } else {
            rest
        }
    }
}

pub open spec fn spec_max_name(fs: Seq<FlagSpec>) -> int
    decreases fs.len(),
{
    if fs.len() == 0 {
        0
    } else {
        let rest = spec_max_name(fs.drop_last());
        let this = encode_utf8(fs.last().name).len() as int;
        if this > rest {
            this
        } else {
            rest
        }
    }
}

pub open spec fn spec_max_value(fs: Seq<FlagSpec>) -> int
    decreases fs.len(),
{
    if fs.len() == 0 {
        0
    } else {
        let rest = spec_max_value(fs.drop_last());
        let this = encode_utf8(fs.last().value).len() as int;
        if this > rest {
            this
        } else {
            rest
        }
    }
}

pub open spec fn spec_max_override(fs: Seq<FlagSpec>) -> int
    decreases fs.len(),
{
    if fs.len() == 0 {
        0
    } else {
        let rest = spec_max_override(fs.drop_last());
        let this = encode_utf8(spec_override_str(fs.last().override_type)).len() as int;
        if this > rest {
            this
        } else {
            rest
        }
    }
}

pub open spec fn spec_max_permission(fs: Seq<FlagSpec>) -> int
    decreases fs.len(),
{
    if fs.len() == 0 {
        0
    } else {
        let rest = spec_max_permission(fs.drop_last());
        let this = encode_utf8(spec_permission_str(fs.last().permission)).len() as int;
        if this > rest {
            this
        } else {
            rest
        }
    }
}

/// The whole listing: one row per flag, in order, with the columns
/// sized by the longest entries.
pub open spec fn spec_rows(fs: Seq<FlagSpec>, upto: int, p0: int, p1: int, p2: int, p3: int, p4: int) -> Seq<char>
    decreases upto,
{
    if upto <= 0 {
        Seq::empty()
    } else {
        spec_rows(fs, upto - 1, p0, p1, p2, p3, p4) + spec_flag_row(
            fs[upto - 1],
            p0,
            p1,
            p2,
            p3,
            p4,
        )
    }
}

/// Renders the flag listing: every flag as one aligned row.
pub fn list(flags: &Vec<Flag>) -> (r: String)
    requires
        flags@.len() < usize::MAX,
        forall|i: int|
            0 <= i < flags@.len() ==> encode_utf8((#[trigger] flags@[i])@.package).len()
                < usize::MAX - 1 && encode_utf8(flags@[i]@.name).len() < usize::MAX - 1
                && encode_utf8(flags@[i]@.value).len() < usize::MAX - 1,
    ensures
        ({
            let fs = flags@.map_values(|f: Flag| f@);
            r@ == spec_rows(
                fs,
                fs.len() as int,
                spec_max_package(fs),
                spec_max_name(fs),
                spec_max_value(fs),
                spec_max_override(fs),
                spec_max_permission(fs),
            )
        }),
{
    let ghost fs = flags@.map_values(|f: Flag| f@);
    let n = flags.len();
    let mut p0: usize = 0;
    let mut p1: usize = 0;
    let mut p2: usize = 0;
    let mut p3: usize = 0;
    let mut p4: usize = 0;
    let mut i: usize = 0;
    while i < n
        invariant
            i <= n,
            n == flags@.len(),
            fs == flags@.map_values(|f: Flag| f@),
            forall|k: int|
                0 <= k < flags@.len() ==> encode_utf8((#[trigger] flags@[k])@.package).len()
                    < usize::MAX - 1 && encode_utf8(flags@[k]@.name).len() < usize::MAX - 1
                    && encode_utf8(flags@[k]@.value).len() < usize::MAX - 1,
            p0 == spec_max_package(fs.subrange(0, i as int)),
            p1 == spec_max_name(fs.subrange(0, i as int)),
            p2 == spec_max_value(fs.subrange(0, i as int)),
            p3 == spec_max_override(fs.subrange(0, i as int)),
            p4 == spec_max_permission(fs.subrange(0, i as int)),
            p0 < usize::MAX - 1,
            p1 < usize::MAX - 1,
            p2 < usize::MAX - 1,
            p3 <= 7,
            p4 <= 10,
        decreases n - i,
    {
        proof {
            reveal_strlit("default");
            reveal_strlit("server");
            reveal_strlit("read-only");
            reveal_strlit("read-write");
            vstd::utf8::is_ascii_chars_encode_utf8("default"@);
            vstd::utf8::is_ascii_chars_encode_utf8("server"@);
            vstd::utf8::is_ascii_chars_encode_utf8("read-only"@);
            vstd::utf8::is_ascii_chars_encode_utf8("read-write"@);
        }
        let f = &flags[i];
        let lp = f.package.as_str().len();
        if lp > p0 {
            p0 = lp;
        }
        let ln = f.name.as_str().len();
        if ln > p1 {
            p1 = ln;
        }
        let lv = f.value.as_str().len();
        if lv > p2 {
            p2 = lv;
        }
        let lo = f.override_type.to_string().as_str().len();
        if lo > p3 {
            p3 = lo;
        }
        let lm = f.permission.to_string().as_str().len();
        if lm > p4 {
            p4 = lm;
        }
        i = i + 1;
        proof {
            assert(fs.subrange(0, i as int).drop_last() =~= fs.subrange(0, i as int - 1));
            assert(fs.subrange(0, i as int).last() == fs[i as int - 1]);
        }
    }
    proof {
        assert(fs.subrange(0, n as int) =~= fs);
    }
    let mut result = String::new();
    let padding_info = PaddingInfo {
        longest_package_col: p0,
        longest_name_col: p1,
        longest_val_col: p2,
        longest_override_type_col: p3,
        longest_permission_col: p4,
    };
    let mut j: usize = 0;
    while j < n
        invariant
            j <= n,
            n == flags@.len(),
            fs == flags@.map_values(|f: Flag| f@),
            forall|k: int|
                0 <= k < flags@.len() ==> encode_utf8((#[trigger] flags@[k])@.package).len()
                    < usize::MAX - 1 && encode_utf8(flags@[k]@.name).len() < usize::MAX - 1
                    && encode_utf8(flags@[k]@.value).len() < usize::MAX - 1,
            padding_info.longest_package_col == p0,
            padding_info.longest_name_col == p1,
            padding_info.longest_val_col == p2,
            padding_info.longest_override_type_col == p3,
            padding_info.longest_permission_col == p4,
            p0 < usize::MAX,
            p1 < usize::MAX,
            p2 < usize::MAX,
            p3 < usize::MAX,
            p4 < usize::MAX,
            result@ == spec_rows(
                fs,
                j as int,
                p0 as int,
                p1 as int,
                p2 as int,
                p3 as int,
                p4 as int,
            ),
        decreases n - j,
    {
        let row = format_flag_row(&flags[j], &padding_info);
        result.append(row.as_str());
        j = j + 1;
        proof {
            assert(result@ =~= spec_rows(
                fs,
                j as int,
                p0 as int,
                p1 as int,
                p2 as int,
                p3 as int,
                p4 as int,
            ));
        }
    }
    result
}

/// Errors of the flag override decision.
#[derive(Debug, PartialEq, Eq)]
pub enum AflagsError {
    /// No flag with this package and name exists on the device.
    FlagNotFound { package: String, name: String },
    /// The flag is read-only in the current release configuration.
    ReadOnlyFlag { package: String, name: String },
    /// Only "true" and "false" can be written.
    UnsupportedValue { value: String },
}

impl AflagsError {
    /// The message the tool prints for this error.
    pub open spec fn spec_message(self) -> Seq<char> {
        match self {
            AflagsError::FlagNotFound { package, name } => {
                "no aconfig flag '"@ + package@ + "/"@ + name@
                    + "'. Does the flag have an .aconfig definition?"@
            },
            AflagsError::ReadOnlyFlag { package, name } => {
                "could not write flag '"@ + package@ + "/"@ + name@
                    + "', it is read-only for the current release configuration."@
            },
            AflagsError::UnsupportedValue { value } => {
                "unsupported override type "@ + value@
            },
        }
    }

    /// Renders the error message.
    pub fn message(&self) -> (r: String)
        ensures
            r@ == self.spec_message(),
    {
        match self {
            AflagsError::FlagNotFound { package, name } => {
                let r = "no aconfig flag '".to_owned().concat(package.as_str()).concat(
                    "/",
                ).concat(name.as_str()).concat("'. Does the flag have an .aconfig definition?");
                proof {
                    assert(r@ =~= self.spec_message());
                }
                r
            },
            AflagsError::ReadOnlyFlag { package, name } => {
                let r = "could not write flag '".to_owned().concat(package.as_str()).concat(
                    "/",
                ).concat(name.as_str()).concat(
                    "', it is read-only for the current release configuration.",
                );
                proof {
                    assert(r@ =~= self.spec_message());
                }
                r
            },
            AflagsError::UnsupportedValue { value } => {
                let r = "unsupported override type ".to_owned().concat(value.as_str());
                proof {
                    assert(r@ =~= self.spec_message());
                }
                r
            },
        }
    }
}

/// The override a caller should apply, and the message to print once it
/// is done.
#[derive(Debug)]
pub struct SetFlagAction {
    pub namespace: String,
    pub message: String,
}

/// The index of the first flag with this package and name, or the
/// list's length when none matches.
pub open spec fn spec_first_match(fs: Seq<FlagSpec>, package: Seq<char>, name: Seq<char>) -> int
    decreases fs.len(),
{
    if fs.len() == 0 {
        0
    } else if fs[0].name == name && fs[0].package == package {
        0
    } else {
        1 + spec_first_match(fs.drop_first(), package, name)
    }
}

/// The success message for an applied override.
pub open spec fn spec_set_message(package: Seq<char>, name: Seq<char>, enabled: bool) -> Seq<
    char,
> {
    "Successfully "@ + (if enabled {
        "enabled"@
    } else {
        "disabled"@
    }) + " flag "@ + package + "/"@ + name + ". Reboot the device to apply the change."@
}

/// Decides a flag override: finds the flag, refuses a read-only one and
/// a value other than "true" or "false", and otherwise hands back the
/// namespace to override together with the success message.
pub fn set_flag(flags: &Vec<Flag>, package: &str, name: &str, value: &str) -> (r: Result<
    SetFlagAction,
    AflagsError,
>)
    ensures
        ({
            let fs = flags@.map_values(|f: Flag| f@);
            let i = spec_first_match(fs, package@, name@);
            if i == fs.len() {
                r matches Err(e) && e matches AflagsError::FlagNotFound { package: p, name: n }
                    && p@ == package@ && n@ == name@
            } else if fs[i].permission == FlagPermission::ReadOnly {
                r matches Err(e) && e matches AflagsError::ReadOnlyFlag { package: p, name: n }
                    && p@ == package@ && n@ == name@
            } else if value@ != "true"@ && value@ != "false"@ {
                r matches Err(e) && e matches AflagsError::UnsupportedValue { value: v } && v@
                    == value@
            } else {
                r matches Ok(a) && a.namespace@ == fs[i].namespace && a.message@
                    == spec_set_message(package@, name@, value@ == "true"@)
            }
        }),
{
    let ghost fs = flags@.map_values(|f: Flag| f@);
    let n = flags.len();
    proof {
        lemma_first_match_bound(fs, package@, name@);
    }
    let mut i: usize = 0;
    while i < n
        invariant
            i <= n,
            n == flags@.len(),
            fs == flags@.map_values(|f: Flag| f@),
            spec_first_match(fs, package@, name@) >= i,
        decreases n - i,
    {
        if str_eq(flags[i].name.as_str(), name) && str_eq(flags[i].package.as_str(), package) {
            proof {
                lemma_first_match_found(fs, package@, name@, i as int);
            }
            let flag = &flags[i];
            if matches!(flag.permission, FlagPermission::ReadOnly) {
                return Err(
                    AflagsError::ReadOnlyFlag { package: package.to_owned(), name: name.to_owned() },
                );
            }
            let enabled = str_eq(value, "true");
            if !enabled && !str_eq(value, "false") {
                return Err(AflagsError::UnsupportedValue { value: value.to_owned() });
            }
            let message = "Successfully ".to_owned().concat(if enabled {
                "enabled"
            } else {
                "disabled"
            }).concat(" flag ").concat(package).concat("/").concat(name).concat(
                ". Reboot the device to apply the change.",
            );
            proof {
                assert(message@ =~= spec_set_message(package@, name@, value@ == "true"@));
            }
            return Ok(SetFlagAction { namespace: flag.namespace.clone(), message });
        }
        proof {
            lemma_first_match_step(fs, package@, name@, i as int);
        }
        i = i + 1;
    }
    proof {
        lemma_first_match_bound(fs, package@, name@);
    }
    Err(AflagsError::FlagNotFound { package: package.to_owned(), name: name.to_owned() })
}

/// A hit at `i` with no earlier hit pins the first match at `i`.
proof fn lemma_first_match_found(fs: Seq<FlagSpec>, package: Seq<char>, name: Seq<char>, i: int)
    requires
        0 <= i < fs.len(),
        fs[i].name == name && fs[i].package == package,
        spec_first_match(fs, package, name) >= i,
    ensures
        spec_first_match(fs, package, name) == i,
    decreases fs.len(),
{
    if i > 0 {
        if fs[0].name == name && fs[0].package == package {
            assert(spec_first_match(fs, package, name) == 0);
            assert(false);
        } else {
            assert(fs.drop_first()[i - 1] == fs[i]);
            lemma_first_match_found(fs.drop_first(), package, name, i - 1);
        }
    }
}

/// A miss at `i` pushes the first match past `i`.
proof fn lemma_first_match_step(fs: Seq<FlagSpec>, package: Seq<char>, name: Seq<char>, i: int)
    requires
        0 <= i < fs.len(),
        !(fs[i].name == name && fs[i].package == package),
        spec_first_match(fs, package, name) >= i,
    ensures
        spec_first_match(fs, package, name) >= i + 1,
    decreases fs.len(),
{
    lemma_first_match_bound(fs.drop_first(), package, name);
    if i > 0 {
        if fs[0].name == name && fs[0].package == package {
            assert(spec_first_match(fs, package, name) == 0);
            assert(false);
        } else {
            assert(fs.drop_first()[i - 1] == fs[i]);
            lemma_first_match_step(fs.drop_first(), package, name, i - 1);
        }
    }
}

/// The first match never lies past the list.
proof fn lemma_first_match_bound(fs: Seq<FlagSpec>, package: Seq<char>, name: Seq<char>)
    ensures
        0 <= spec_first_match(fs, package, name) <= fs.len(),
    decreases fs.len(),
{
    if fs.len() > 0 {
        lemma_first_match_bound(fs.drop_first(), package, name);
    }
}

} // verus!
