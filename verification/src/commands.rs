//! Flag library preparation: selecting and rewriting flags for a codegen
//! mode, assigning storage ids, and fingerprinting a package's flag names.

use vstd::prelude::*;
use vstd::hash_map::StringHashMap;
use vstd::utf8::encode_utf8;
use crate::codegen::CodegenMode;
use crate::errors::{AconfigError, AconfigErrorView};
use crate::flags::{
    FlagMetadata, FlagPermission, FlagState, FlagStorageBackend, ParsedFlag, ParsedFlagView,
    flags_view, should_include, should_include_flag,
};
use crate::parse::{flags_result_view, names_unique};
use crate::codegen::spec_flag_offset;
use crate::sip::{sip13_chunks, sip13_digest, sip13_finish, sip13_new, sip13_write};
use crate::sort::{sort_strings, sorted_strings, lemma_sorted_strings_ignore_order};
use crate::text::{chars_le, strings_view};
use crate::cpp::{Context, ContextView, cpp_inputs_valid, generate_cpp_code, spec_cpp_context};

verus! {

/// The package shared by all flags, if there are flags and they share one.
pub open spec fn unique_package(flags: Seq<ParsedFlagView>) -> Option<Seq<char>> {
    if flags.len() == 0 {
        None
    } else if exists|i: int| 0 <= i < flags.len() && (#[trigger] flags[i]).package != flags[0].package {
        None
    } else {
        Some(flags[0].package)
    }
}

fn find_unique_package(parsed_flags: &Vec<ParsedFlag>) -> (r: Option<String>)
    ensures
        match r {
            Some(p) => unique_package(flags_view(parsed_flags@)) == Some(p@),
            None => unique_package(flags_view(parsed_flags@)) is None,
        },
{
    let ghost fv = flags_view(parsed_flags@);
    if parsed_flags.len() == 0 {
        return None;
    }
    let package = &parsed_flags[0].package;
    let mut i: usize = 0;
    while i < parsed_flags.len()
        invariant
            i <= parsed_flags.len(),
            fv == flags_view(parsed_flags@),
            fv.len() > 0,
            package@ == fv[0].package,
            forall|j: int| 0 <= j < i ==> (#[trigger] fv[j]).package == fv[0].package,
        decreases parsed_flags.len() - i,
    {
        if parsed_flags[i].package != *package {
            assert(fv[i as int].package != fv[0].package);
            return None;
        }
        i = i + 1;
    }
    Some(package.clone())
}

/// Whether a flag takes part in a library of the given mode: only exported
/// flags in exported mode, only non-exported flags in force-read-only mode,
/// all flags otherwise.
pub open spec fn selected(f: ParsedFlagView, mode: CodegenMode) -> bool {
    match mode {
        CodegenMode::Exported => f.is_exported,
        CodegenMode::ForceReadOnly => !f.is_exported,
        _ => true,
    }
}

/// How a selected flag is rewritten: in exported mode it becomes a disabled
/// read-write flag stored by aconfigd and not fixed read-only; in
/// force-read-only mode a read-only flag without storage; otherwise it is
/// kept. A flag without metadata cannot be rewritten.
pub open spec fn modify_flag(f: ParsedFlagView, mode: CodegenMode) -> Result<
    ParsedFlagView,
    AconfigErrorView,
> {
    match mode {
        CodegenMode::Exported => match f.metadata {
            None => Err(AconfigErrorView::MissingMetadata),
            Some(m) => Ok(
                ParsedFlagView {
                    state: FlagState::Disabled,
                    permission: FlagPermission::ReadWrite,
                    is_fixed_read_only: false,
                    metadata: Some(
                        FlagMetadata { purpose: m.purpose, storage: FlagStorageBackend::Aconfigd },
                    ),
                    ..f
                },
            ),
        },
        CodegenMode::ForceReadOnly => match f.metadata {
            None => Err(AconfigErrorView::MissingMetadata),
            Some(m) => Ok(
                ParsedFlagView {
                    permission: FlagPermission::ReadOnly,
                    metadata: Some(
                        FlagMetadata { purpose: m.purpose, storage: FlagStorageBackend::NoBackend },
                    ),
                    ..f
                },
            ),
        },
        _ => Ok(f),
    }
}

/// The selected flags of `flags`, rewritten for the mode and appended to
/// `acc`, stopping at the first flag that cannot be rewritten.
pub open spec fn modify_flags(acc: Seq<ParsedFlagView>, flags: Seq<ParsedFlagView>, mode: CodegenMode) -> Result<
    Seq<ParsedFlagView>,
    AconfigErrorView,
>
    decreases flags.len(),
{
    if flags.len() == 0 {
        Ok(acc)
    } else if !selected(flags[0], mode) {
        modify_flags(acc, flags.drop_first(), mode)
    } else {
        match modify_flag(flags[0], mode) {
            Err(e) => Err(e),
            Ok(g) => modify_flags(acc.push(g), flags.drop_first(), mode),
        }
    }
}

/// The flags of a library of the given mode; an empty library is refused.
pub open spec fn spec_modify_for_mode(flags: Seq<ParsedFlagView>, mode: CodegenMode) -> Result<
    Seq<ParsedFlagView>,
    AconfigErrorView,
> {
    match modify_flags(Seq::empty(), flags, mode) {
        Err(e) => Err(e),
        Ok(gs) => if gs.len() == 0 {
            Err(AconfigErrorView::NoFlagsForMode { mode })
        } else {
            Ok(gs)
        },
    }
}

fn modify_one(parsed_flag: ParsedFlag, mode: CodegenMode) -> (r: Result<ParsedFlag, AconfigError>)
    ensures
        match modify_flag(parsed_flag@, mode) {
            Ok(g) => r is Ok && r->Ok_0@ == g,
            Err(e) => r is Err && r->Err_0@ == e,
        },
{
    let mut pf = parsed_flag;
    match mode {
        CodegenMode::Exported => {
            pf.state = FlagState::Disabled;
            pf.permission = FlagPermission::ReadWrite;
            pf.is_fixed_read_only = false;
            match pf.metadata {
                None => Err(AconfigError::MissingMetadata),
                Some(m) => {
                    pf.metadata = Some(
                        FlagMetadata { purpose: m.purpose, storage: FlagStorageBackend::Aconfigd },
                    );
                    Ok(pf)
                },
            }
        },
        CodegenMode::ForceReadOnly => {
            pf.permission = FlagPermission::ReadOnly;
            match pf.metadata {
                None => Err(AconfigError::MissingMetadata),
                Some(m) => {
                    pf.metadata = Some(
                        FlagMetadata { purpose: m.purpose, storage: FlagStorageBackend::NoBackend },
                    );
                    Ok(pf)
                },
            }
        },
        _ => Ok(pf),
    }
}

/// The flags of a library of the given mode: the selected flags, in order,
/// rewritten for the mode.
#[verifier::loop_isolation(false)]
pub fn modify_parsed_flags_based_on_mode(parsed_flags: Vec<ParsedFlag>, codegen_mode: CodegenMode) -> (r:
    Result<Vec<ParsedFlag>, AconfigError>)
    ensures
        flags_result_view(r) == spec_modify_for_mode(flags_view(parsed_flags@), codegen_mode),
{
    let ghost all = flags_view(parsed_flags@);
    let ghost goal = modify_flags(Seq::empty(), all, codegen_mode);
    let mut out: Vec<ParsedFlag> = Vec::new();
    let mut rev: Vec<ParsedFlag> = Vec::new();
    let mut input = parsed_flags;
    let n = input.len();
    while input.len() > 0
        invariant
            rev.len() + input.len() == n,
            n == all.len(),
            forall|j: int| 0 <= j < input.len() ==> (#[trigger] input@[j])@ == all[j],
            forall|j: int| 0 <= j < rev.len() ==> (#[trigger] rev@[j])@ == all[n - 1 - j],
        decreases input.len(),
    {
        let f = input.pop().unwrap();
        rev.push(f);
    }
    assert(all.skip(0) == all);
    assert(flags_view(out@) == Seq::<ParsedFlagView>::empty());
    while rev.len() > 0
        invariant
            rev.len() <= n,
            n == all.len(),
            forall|j: int| 0 <= j < rev.len() ==> (#[trigger] rev@[j])@ == all[n - 1 - j],
            goal == modify_flags(flags_view(out@), all.skip(n - rev.len()), codegen_mode),
        decreases rev.len(),
    {
        let ghost k = n - rev.len();
        let ghost rest = all.skip(k);
        assert(rest[0] == all[k]);
        assert(rest.drop_first() == all.skip(k + 1));
        let f = rev.pop().unwrap();
        assert(f@ == all[k]);
        let keep = match codegen_mode {
            CodegenMode::Exported => f.is_exported,
            CodegenMode::ForceReadOnly => !f.is_exported,
            _ => true,
        };
        if keep {
            match modify_one(f, codegen_mode) {
                Err(e) => {
                    return Err(e);
                },
                Ok(g) => {
                    let ghost o0 = out@;
                    out.push(g);
                    assert(flags_view(out@) == flags_view(o0).push(g@));
                },
            }
        }
    }
    assert(all.skip(n as int) == Seq::<ParsedFlagView>::empty());
    if out.len() == 0 {
        return Err(AconfigError::NoFlagsForMode { mode: codegen_mode });
    }
    Ok(out)
}


/// Adjacent flags are in ascending order of name.
pub open spec fn names_in_order(flags: Seq<ParsedFlagView>) -> bool {
    forall|i: int| 0 <= i < flags.len() - 1 ==> chars_le((#[trigger] flags[i]).name, flags[i + 1].name)
}

/// Storage ids of the flags from `idx` on, added to `ids`: every flag must
/// be of `package`; each flag managed by aconfigd takes the next id; at
/// most 65534 ids fit.
pub open spec fn assign_ids(
    ids: Map<Seq<char>, u16>,
    idx: nat,
    package: Seq<char>,
    flags: Seq<ParsedFlagView>,
) -> Result<Map<Seq<char>, u16>, AconfigErrorView>
    decreases flags.len(),
{
    if flags.len() == 0 {
        Ok(ids)
    } else if flags[0].package != package {
        Err(AconfigErrorView::FlagNotInPackage)
    } else if idx >= 65535 {
        Err(AconfigErrorView::TooManyFlags)
    } else if should_include(flags[0]) {
        assign_ids(ids.insert(flags[0].name, idx as u16), idx + 1, package, flags.drop_first())
    } else {
        assign_ids(ids, idx, package, flags.drop_first())
    }
}

/// Assigns storage ids 0, 1, 2, ... to the flags managed by aconfigd, in
/// order; the flags must come in order of name.
pub fn assign_flag_ids(package: &str, parsed_flags: &Vec<ParsedFlag>) -> (r: Result<
    StringHashMap<u16>,
    AconfigError,
>)
    requires
        names_in_order(flags_view(parsed_flags@)),
    ensures
        match assign_ids(Map::empty(), 0, package@, flags_view(parsed_flags@)) {
            Ok(m) => r is Ok && r->Ok_0@ == m,
            Err(e) => r is Err && r->Err_0@ == e,
        },
{
    let ghost fv = flags_view(parsed_flags@);
    let ghost goal = assign_ids(Map::empty(), 0, package@, fv);
    let mut flag_ids: StringHashMap<u16> = StringHashMap::new();
    let mut flag_idx: u32 = 0;
    let mut i: usize = 0;
    assert(fv.skip(0) == fv);
    while i < parsed_flags.len()
        invariant
            i <= parsed_flags.len(),
            fv == flags_view(parsed_flags@),
            flag_idx <= 65535,
            goal == assign_ids(Map::empty(), 0, package@, fv),
            goal == assign_ids(flag_ids@, flag_idx as nat, package@, fv.skip(i as int)),
        decreases parsed_flags.len() - i,
    {
        let ghost rest = fv.skip(i as int);
        assert(rest[0] == fv[i as int]);
        assert(rest.drop_first() == fv.skip(i + 1));
        let pf = &parsed_flags[i];
        if !crate::text::str_eq(package, pf.package.as_str()) {
            return Err(AconfigError::FlagNotInPackage);
        }
        if flag_idx >= 65535 {
            return Err(AconfigError::TooManyFlags);
        }
        if should_include_flag(pf) {
            flag_ids.insert(pf.name.clone(), flag_idx as u16);
            flag_idx = flag_idx + 1;
        }
        i = i + 1;
    }
    assert(fv.skip(i as int) == Seq::<ParsedFlagView>::empty());
    Ok(flag_ids)
}

/// The names of the flags managed by aconfigd, in order.
pub open spec fn included_names(flags: Seq<ParsedFlagView>) -> Seq<Seq<char>>
    decreases flags.len(),
{
    if flags.len() == 0 {
        Seq::empty()
    } else {
        let r = included_names(flags.drop_last());
        if should_include(flags.last()) {
            r.push(flags.last().name)
        } else {
            r
        }
    }
}

/// The names of the flags managed by aconfigd, for the fingerprint of a
/// package; the flags must all be of one package.
pub fn extract_flag_names(flags: &Vec<ParsedFlag>) -> (r: Result<Vec<String>, AconfigError>)
    ensures
        unique_package(flags_view(flags@)) is None ==> r is Err && r->Err_0@
            == AconfigErrorView::NoUniquePackageForFingerprint,
        unique_package(flags_view(flags@)) is Some ==> r is Ok && strings_view(r->Ok_0@)
            == included_names(flags_view(flags@)),
{
    if find_unique_package(flags).is_none() {
        return Err(AconfigError::NoUniquePackageForFingerprint);
    }
    let ghost fv = flags_view(flags@);
    let mut names: Vec<String> = Vec::new();
    let mut i: usize = 0;
    while i < flags.len()
        invariant
            i <= flags.len(),
            fv == flags_view(flags@),
            strings_view(names@) == included_names(fv.take(i as int)),
        decreases flags.len() - i,
    {
        assert(fv.take(i + 1).drop_last() == fv.take(i as int));
        assert(fv.take(i + 1).last() == flags@[i as int]@);
        if should_include_flag(&flags[i]) {
            let ghost n0 = names@;
            names.push(flags[i].name.clone());
            assert(strings_view(names@) == strings_view(n0).push(flags@[i as int].name@));
        }
        i = i + 1;
    }
    assert(fv.take(flags.len() as int) == fv);
    Ok(names)
}

/// The UTF-8 bytes of each name.
pub open spec fn names_bytes(names: Seq<Seq<char>>) -> Seq<Seq<u8>> {
    names.map_values(|n: Seq<char>| encode_utf8(n))
}

/// The fingerprint of a list of flag names: the SipHash-1-3 of the UTF-8
/// bytes of the names in sorted order, one write per name.
pub open spec fn fingerprint(names: Seq<Seq<char>>) -> u64 {
    sip13_digest(names_bytes(sorted_strings(names)))
}

/// Sorts the flag names and hashes their bytes, one write per name, with
/// SipHash-1-3; the fingerprint is shared by codegen and the storage files.
pub fn compute_flags_fingerprint(flag_names: &mut Vec<String>) -> (r: u64)
    ensures
        strings_view(final(flag_names)@) == sorted_strings(strings_view(old(flag_names)@)),
        r == fingerprint(strings_view(old(flag_names)@)),
{
    sort_strings(flag_names);
    let mut hasher = sip13_new();
    let ghost nb = names_bytes(strings_view(flag_names@));
    let mut i: usize = 0;
    while i < flag_names.len()
        invariant
            i <= flag_names.len(),
            nb == names_bytes(strings_view(flag_names@)),
            sip13_chunks(hasher) == nb.take(i as int),
        decreases flag_names.len() - i,
    {
        let bytes = flag_names[i].as_str().as_bytes();
        sip13_write(&mut hasher, bytes);
        assert(nb.take(i + 1) == nb.take(i as int).push(nb[i as int]));
        i = i + 1;
    }
    assert(nb.take(flag_names.len() as int) == nb);
    sip13_finish(&hasher)
}

/// The fingerprint of a package does not depend on the order of its flag
/// names: name lists with the same names have the same fingerprint.
pub proof fn lemma_fingerprint_ignores_order(names_a: Seq<Seq<char>>, names_b: Seq<Seq<char>>)
    requires
        names_a.to_multiset() == names_b.to_multiset(),
    ensures
        fingerprint(names_a) == fingerprint(names_b),
{
    lemma_sorted_strings_ignore_order(names_a, names_b);
}

/// What the C/C++ library of a cache holds: exported mode is refused; the
/// flags are selected and rewritten for the mode, must share one package,
/// get storage ids, and make up the rendering context (without a
/// fingerprint).
pub open spec fn spec_create_cpp_lib(flags: Seq<ParsedFlagView>, mode: CodegenMode) -> Result<
    ContextView,
    AconfigErrorView,
> {
    if mode == CodegenMode::Exported {
        Err(AconfigErrorView::ExportedCppDisabled)
    } else {
        match spec_modify_for_mode(flags, mode) {
            Err(e) => Err(e),
            Ok(gs) => match unique_package(gs) {
                None => Err(AconfigErrorView::NoUniquePackage),
                Some(p) => match assign_ids(Map::empty(), 0, p, gs) {
                    Err(e) => Err(e),
                    Ok(ids) => spec_cpp_context(p, gs, mode, ids, None),
                },
            },
        }
    }
}

/// Where `create_cpp_lib` does not abort: past the checks that it reports
/// as errors, the library flags are in order of name, and code generation
/// reaches no invalid identifier.
pub open spec fn cpp_lib_inputs_ok(flags: Seq<ParsedFlagView>, mode: CodegenMode) -> bool {
    mode != CodegenMode::Exported ==> match spec_modify_for_mode(flags, mode) {
        Ok(gs) => match unique_package(gs) {
            Some(p) => names_in_order(gs) && match assign_ids(Map::empty(), 0, p, gs) {
                Ok(ids) => cpp_inputs_valid(p, gs, ids),
                Err(_) => true,
            },
            None => true,
        },
        Err(_) => true,
    }
}

/// The rendering context of the C/C++ flag library of a cache.
pub fn create_cpp_lib(parsed_flags: Vec<ParsedFlag>, codegen_mode: CodegenMode) -> (r: Result<
    Context,
    AconfigError,
>)
    requires
        cpp_lib_inputs_ok(flags_view(parsed_flags@), codegen_mode),
    ensures
        match spec_create_cpp_lib(flags_view(parsed_flags@), codegen_mode) {
            Ok(c) => r is Ok && r->Ok_0@ == c,
            Err(e) => r is Err && r->Err_0@ == e,
        },
{
    if codegen_mode == CodegenMode::Exported {
        return Err(AconfigError::ExportedCppDisabled);
    }
    let modified_parsed_flags = match modify_parsed_flags_based_on_mode(parsed_flags, codegen_mode) {
        Ok(v) => v,
        Err(e) => {
            return Err(e);
        },
    };
    let package = match find_unique_package(&modified_parsed_flags) {
        Some(p) => p,
        None => {
            return Err(AconfigError::NoUniquePackage);
        },
    };
    let flag_ids = match assign_flag_ids(package.as_str(), &modified_parsed_flags) {
        Ok(ids) => ids,
        Err(e) => {
            return Err(e);
        },
    };
    generate_cpp_code(package.as_str(), modified_parsed_flags, codegen_mode, flag_ids, None)
}


/// What the Rust flag library of a package is generated from.
pub struct RustLibInputs {
    pub package: String,
    pub flag_ids: StringHashMap<u16>,
    pub parsed_flags: Vec<ParsedFlag>,
    pub codegen_mode: CodegenMode,
    pub package_fingerprint: Option<u64>,
}

/// The package, storage ids and flags of a library of the given mode: the
/// flags are selected and rewritten for the mode, must share one package
/// and get storage ids.
pub open spec fn spec_library_flags(flags: Seq<ParsedFlagView>, mode: CodegenMode) -> Result<
    (Seq<char>, Map<Seq<char>, u16>, Seq<ParsedFlagView>),
    AconfigErrorView,
> {
    match spec_modify_for_mode(flags, mode) {
        Err(e) => Err(e),
        Ok(gs) => match unique_package(gs) {
            None => Err(AconfigErrorView::NoUniquePackage),
            Some(p) => match assign_ids(Map::empty(), 0, p, gs) {
                Err(e) => Err(e),
                Ok(ids) => Ok((p, ids, gs)),
            },
        },
    }
}

/// The inputs of the Rust flag library of a cache: exported mode is
/// refused; otherwise the library flags of the mode, without a fingerprint.
pub fn create_rust_lib(parsed_flags: Vec<ParsedFlag>, codegen_mode: CodegenMode) -> (r: Result<
    RustLibInputs,
    AconfigError,
>)
    requires
        codegen_mode != CodegenMode::Exported ==> match spec_modify_for_mode(
            flags_view(parsed_flags@),
            codegen_mode,
        ) {
            Ok(gs) => unique_package(gs) is Some ==> names_in_order(gs),
            Err(_) => true,
        },
    ensures
        codegen_mode == CodegenMode::Exported ==> r is Err && r->Err_0@
            == AconfigErrorView::ExportedRustDisabled,
        codegen_mode != CodegenMode::Exported ==> match spec_library_flags(
            flags_view(parsed_flags@),
            codegen_mode,
        ) {
            Ok((p, ids, gs)) => r is Ok && r->Ok_0.package@ == p && r->Ok_0.flag_ids@ == ids
                && flags_view(r->Ok_0.parsed_flags@) == gs && r->Ok_0.codegen_mode == codegen_mode
                && r->Ok_0.package_fingerprint is None,
            Err(e) => r is Err && r->Err_0@ == e,
        },
{
    if codegen_mode == CodegenMode::Exported {
        return Err(AconfigError::ExportedRustDisabled);
    }
    let modified_parsed_flags = match modify_parsed_flags_based_on_mode(parsed_flags, codegen_mode) {
        Ok(v) => v,
        Err(e) => {
            return Err(e);
        },
    };
    let package = match find_unique_package(&modified_parsed_flags) {
        Some(p) => p,
        None => {
            return Err(AconfigError::NoUniquePackage);
        },
    };
    let flag_ids = match assign_flag_ids(package.as_str(), &modified_parsed_flags) {
        Ok(ids) => ids,
        Err(e) => {
            return Err(e);
        },
    };
    Ok(
        RustLibInputs {
            package,
            flag_ids,
            parsed_flags: modified_parsed_flags,
            codegen_mode,
            package_fingerprint: None,
        },
    )
}

/// What the Java flag library of a package is generated from.
pub struct JavaLibInputs {
    pub package: String,
    pub flag_ids: StringHashMap<u16>,
    pub parsed_flags: Vec<ParsedFlag>,
    pub codegen_mode: CodegenMode,
    pub package_fingerprint: u64,
    pub single_exported_file: bool,
}

/// The inputs of the Java flag library of a cache: the library flags of
/// the mode, and the fingerprint of the names of all the cache's flags
/// managed by aconfigd, which must share one package.
pub fn create_java_lib(
    parsed_flags: Vec<ParsedFlag>,
    codegen_mode: CodegenMode,
    single_exported_file: bool,
) -> (r: Result<JavaLibInputs, AconfigError>)
    requires
        match spec_modify_for_mode(flags_view(parsed_flags@), codegen_mode) {
            Ok(gs) => unique_package(gs) is Some && unique_package(flags_view(parsed_flags@)) is Some
                ==> names_in_order(gs),
            Err(_) => true,
        },
    ensures
        match spec_modify_for_mode(flags_view(parsed_flags@), codegen_mode) {
            Err(e) => r is Err && r->Err_0@ == e,
            Ok(gs) => match unique_package(gs) {
                None => r is Err && r->Err_0@ == AconfigErrorView::NoUniquePackage,
                Some(p) => if unique_package(flags_view(parsed_flags@)) is None {
                    r is Err && r->Err_0@ == AconfigErrorView::NoUniquePackageForFingerprint
                } else {
                    match assign_ids(Map::empty(), 0, p, gs) {
                        Err(e) => r is Err && r->Err_0@ == e,
                        Ok(ids) => r is Ok && r->Ok_0.package@ == p && r->Ok_0.flag_ids@ == ids
                            && flags_view(r->Ok_0.parsed_flags@) == gs && r->Ok_0.codegen_mode
                            == codegen_mode && r->Ok_0.package_fingerprint == fingerprint(
                            included_names(flags_view(parsed_flags@)),
                        ) && r->Ok_0.single_exported_file == single_exported_file,
                    }
                },
            },
        },
{
    let names = extract_flag_names(&parsed_flags);
    let modified_parsed_flags = match modify_parsed_flags_based_on_mode(parsed_flags, codegen_mode) {
        Ok(v) => v,
        Err(e) => {
            return Err(e);
        },
    };
    let package = match find_unique_package(&modified_parsed_flags) {
        Some(p) => p,
        None => {
            return Err(AconfigError::NoUniquePackage);
        },
    };
    let mut flag_names = match names {
        Ok(n) => n,
        Err(e) => {
            return Err(e);
        },
    };
    let package_fingerprint = compute_flags_fingerprint(&mut flag_names);
    let flag_ids = match assign_flag_ids(package.as_str(), &modified_parsed_flags) {
        Ok(ids) => ids,
        Err(e) => {
            return Err(e);
        },
    };
    Ok(
        JavaLibInputs {
            package,
            flag_ids,
            parsed_flags: modified_parsed_flags,
            codegen_mode,
            package_fingerprint,
            single_exported_file,
        },
    )
}


/// What every flag of a library of the given mode satisfies.
pub open spec fn fits_mode(g: ParsedFlagView, mode: CodegenMode) -> bool {
    match mode {
        CodegenMode::Exported => {
            &&& g.is_exported
            &&& g.state == FlagState::Disabled
            &&& g.permission == FlagPermission::ReadWrite
            &&& !g.is_fixed_read_only
            &&& g.metadata matches Some(m) && m.storage == FlagStorageBackend::Aconfigd
        },
        CodegenMode::ForceReadOnly => {
            &&& !g.is_exported
            &&& g.permission == FlagPermission::ReadOnly
            &&& g.metadata matches Some(m) && m.storage == FlagStorageBackend::NoBackend
        },
        _ => true,
    }
}

proof fn lemma_modify_flags_fit(acc: Seq<ParsedFlagView>, flags: Seq<ParsedFlagView>, mode: CodegenMode)
    requires
        forall|i: int| 0 <= i < acc.len() ==> fits_mode(#[trigger] acc[i], mode),
    ensures
        modify_flags(acc, flags, mode) matches Ok(gs) ==> forall|i: int|
            0 <= i < gs.len() ==> fits_mode(#[trigger] gs[i], mode),
        (mode == CodegenMode::Production || mode == CodegenMode::Test) ==> modify_flags(
            acc,
            flags,
            mode,
        ) == Ok::<Seq<ParsedFlagView>, AconfigErrorView>(acc + flags),
    decreases flags.len(),
{
    if flags.len() == 0 {
        assert(acc + flags =~= acc);
    } else {
        if !selected(flags[0], mode) {
            lemma_modify_flags_fit(acc, flags.drop_first(), mode);
        } else if let Ok(g) = modify_flag(flags[0], mode) {
            assert forall|i: int| 0 <= i < acc.push(g).len() implies fits_mode(
                #[trigger] acc.push(g)[i],
                mode,
            ) by {
                if i < acc.len() {
                    assert(acc.push(g)[i] == acc[i]);
                }
            }
            lemma_modify_flags_fit(acc.push(g), flags.drop_first(), mode);
            assert(acc.push(flags[0]) + flags.drop_first() =~= acc + flags);
        }
    }
}

/// A library of a mode is never empty; in exported mode it holds only
/// exported flags, rewritten to disabled, read-write, not fixed read-only
/// and stored by aconfigd; in force-read-only mode only non-exported flags,
/// rewritten to read-only without storage; in production and test mode it
/// holds the flags unchanged.
pub proof fn lemma_library_fits_mode(flags: Seq<ParsedFlagView>, mode: CodegenMode)
    ensures
        spec_modify_for_mode(flags, mode) matches Ok(gs) ==> {
            &&& gs.len() > 0
            &&& forall|i: int| 0 <= i < gs.len() ==> fits_mode(#[trigger] gs[i], mode)
            &&& (mode == CodegenMode::Production || mode == CodegenMode::Test) ==> gs == flags
        },
{
    lemma_modify_flags_fit(Seq::empty(), flags, mode);
    assert(Seq::<ParsedFlagView>::empty() + flags =~= flags);
}

/// The number of flags managed by aconfigd.
pub open spec fn count_included(flags: Seq<ParsedFlagView>) -> nat
    decreases flags.len(),
{
    if flags.len() == 0 {
        0
    } else {
        (if should_include(flags[0]) {
            1nat
        } else {
            0nat
        }) + count_included(flags.drop_first())
    }
}

proof fn lemma_assign_ids_offsets(
    ids0: Map<Seq<char>, u16>,
    idx: nat,
    package: Seq<char>,
    flags: Seq<ParsedFlagView>,
)
    requires
        names_unique(flags),
        forall|i: int| 0 <= i < flags.len() ==> !ids0.contains_key(#[trigger] flags[i].name),
    ensures
        assign_ids(ids0, idx, package, flags) matches Ok(ids) ==> {
            &&& forall|k: Seq<char>| #[trigger] ids0.contains_key(k) ==> ids.contains_key(k)
                && ids[k] == ids0[k]
            &&& forall|k: Seq<char>|
                !ids0.contains_key(k) && (forall|j: int|
                    0 <= j < flags.len() ==> (#[trigger] flags[j]).name != k) ==> !(
                #[trigger] ids.contains_key(k))
            &&& forall|i: int|
                0 <= i < flags.len() ==> if should_include(#[trigger] flags[i]) {
                    ids.contains_key(flags[i].name) && ids[flags[i].name] == (idx + count_included(
                        flags.take(i),
                    )) as u16 && idx + count_included(flags.take(i)) < 65535
                } else {
                    !ids.contains_key(flags[i].name)
                }
        },
    decreases flags.len(),
{
    if flags.len() > 0 && flags[0].package == package && idx < 65535 {
        let rest = flags.drop_first();
        let f = flags[0];
        assert(names_unique(rest)) by {
            assert forall|i: int, j: int|
                0 <= i < rest.len() && 0 <= j < rest.len() && i != j implies (
                #[trigger] rest[i]).name != (#[trigger] rest[j]).name by {
                assert(rest[i] == flags[i + 1]);
                assert(rest[j] == flags[j + 1]);
            }
        }
        let ids1 = if should_include(f) {
            ids0.insert(f.name, idx as u16)
        } else {
            ids0
        };
        let idx1 = if should_include(f) {
            idx + 1
        } else {
            idx
        };
        assert forall|i: int| 0 <= i < rest.len() implies !ids1.contains_key(
            #[trigger] rest[i].name,
        ) by {
            assert(rest[i] == flags[i + 1]);
            assert(flags[0].name != flags[i + 1].name);
        }
        lemma_assign_ids_offsets(ids1, idx1, package, rest);
        if let Ok(ids) = assign_ids(ids0, idx, package, flags) {
            assert(assign_ids(ids1, idx1, package, rest) == Ok::<
                Map<Seq<char>, u16>,
                AconfigErrorView,
            >(ids));
            assert forall|k: Seq<char>|
                !ids0.contains_key(k) && (forall|j: int|
                    0 <= j < flags.len() ==> (#[trigger] flags[j]).name != k) implies !(
            #[trigger] ids.contains_key(k)) by {
                assert(flags[0].name != k);
                assert forall|j: int| 0 <= j < rest.len() implies (#[trigger] rest[j]).name != k by {
                    assert(rest[j] == flags[j + 1]);
                }
            }
            assert(!ids0.contains_key(f.name)) by {
                assert(flags[0] == f);
            }
            assert forall|k: Seq<char>| #[trigger] ids0.contains_key(k) implies ids.contains_key(k)
                && ids[k] == ids0[k] by {
                assert(ids1.contains_key(k) && ids1[k] == ids0[k]);
            }
            assert forall|j: int| 0 <= j < rest.len() implies (#[trigger] rest[j]).name
                != f.name by {
                assert(rest[j] == flags[j + 1]);
            }
            if should_include(f) {
                assert(ids1.contains_key(f.name) && ids1[f.name] == idx as u16);
                assert(ids.contains_key(f.name) && ids[f.name] == idx as u16);
            } else {
                assert(!ids1.contains_key(f.name));
                assert(!ids.contains_key(f.name));
            }
            assert forall|i: int| 0 <= i < flags.len() implies if should_include(
                #[trigger] flags[i],
            ) {
                ids.contains_key(flags[i].name) && ids[flags[i].name] == (idx + count_included(
                    flags.take(i),
                )) as u16 && idx + count_included(flags.take(i)) < 65535
            } else {
                !ids.contains_key(flags[i].name)
            } by {
                if i == 0 {
                    assert(flags.take(0) =~= Seq::<ParsedFlagView>::empty());
                    assert(count_included(flags.take(0)) == 0);
                    assert(flags[i] == f);
                } else {
                    assert(rest[i - 1] == flags[i]);
                    assert(flags.take(i).drop_first() =~= rest.take(i - 1));
                    assert(flags.take(i)[0] == flags[0]);
                    assert(count_included(flags.take(i)) == (if should_include(f) {
                        1nat
                    } else {
                        0nat
                    }) + count_included(rest.take(i - 1)));
                }
            }
        }
    }
}

/// Storage ids and offsets agree: for flags with distinct names, when ids
/// are assigned, each flag managed by aconfigd is found at its id, the
/// number of managed flags before it, and every other flag at offset
/// `u16::MAX`.
pub proof fn lemma_assigned_ids_give_offsets(package: Seq<char>, flags: Seq<ParsedFlagView>)
    requires
        names_unique(flags),
    ensures
        assign_ids(Map::empty(), 0, package, flags) matches Ok(ids) ==> forall|i: int|
            0 <= i < flags.len() ==> spec_flag_offset(ids, #[trigger] flags[i]) == if should_include(
                flags[i],
            ) {
                Ok::<u16, AconfigErrorView>(count_included(flags.take(i)) as u16)
            } else {
                Ok::<u16, AconfigErrorView>(u16::MAX)
            },
{
    lemma_assign_ids_offsets(Map::empty(), 0, package, flags);
}

/// `g` is what a library of `mode` makes of the flag `f`, which it takes
/// part in: in force-read-only mode a non-exported `f` made read-only and
/// given no storage; in exported mode an exported `f` made disabled,
/// read-write, not fixed read-only and stored by aconfigd; otherwise `f`
/// itself. Every other field is kept, the purpose included.
pub open spec fn rewritten_for(f: ParsedFlagView, g: ParsedFlagView, mode: CodegenMode) -> bool {
    &&& g.package == f.package
    &&& g.name == f.name
    &&& g.namespace == f.namespace
    &&& g.description == f.description
    &&& g.bug == f.bug
    &&& g.trace == f.trace
    &&& g.is_exported == f.is_exported
    &&& g.container == f.container
    &&& match mode {
        CodegenMode::ForceReadOnly => {
            &&& !f.is_exported
            &&& g.state == f.state
            &&& g.is_fixed_read_only == f.is_fixed_read_only
            &&& g.permission == FlagPermission::ReadOnly
            &&& f.metadata is Some
            &&& g.metadata == Some(
                FlagMetadata {
                    purpose: f.metadata->Some_0.purpose,
                    storage: FlagStorageBackend::NoBackend,
                },
            )
        },
        CodegenMode::Exported => {
            &&& f.is_exported
            &&& g.state == FlagState::Disabled
            &&& !g.is_fixed_read_only
            &&& g.permission == FlagPermission::ReadWrite
            &&& f.metadata is Some
            &&& g.metadata == Some(
                FlagMetadata {
                    purpose: f.metadata->Some_0.purpose,
                    storage: FlagStorageBackend::Aconfigd,
                },
            )
        },
        _ => g == f,
    }
}

/// The flags that take part in a library of `mode`, in order: the exported
/// ones in exported mode, the others in force-read-only mode, all of them
/// otherwise.
pub open spec fn taking_part(flags: Seq<ParsedFlagView>, mode: CodegenMode) -> Seq<ParsedFlagView>
    decreases flags.len(),
{
    if flags.len() == 0 {
        Seq::empty()
    } else {
        let takes = match mode {
            CodegenMode::Exported => flags[0].is_exported,
            CodegenMode::ForceReadOnly => !flags[0].is_exported,
            _ => true,
        };
        (if takes {
            seq![flags[0]]
        } else {
            Seq::empty()
        }) + taking_part(flags.drop_first(), mode)
    }
}

proof fn lemma_modify_flags_rewrite(
    acc: Seq<ParsedFlagView>,
    flags: Seq<ParsedFlagView>,
    mode: CodegenMode,
)
    ensures
        modify_flags(acc, flags, mode) matches Ok(gs) ==> {
            &&& gs.len() == acc.len() + taking_part(flags, mode).len()
            &&& forall|k: int| 0 <= k < acc.len() ==> #[trigger] gs[k] == acc[k]
            &&& forall|m: int|
                0 <= m < taking_part(flags, mode).len() ==> rewritten_for(
                    taking_part(flags, mode)[m],
                    #[trigger] gs[acc.len() + m],
                    mode,
                )
        },
    decreases flags.len(),
{
    if flags.len() > 0 {
        let rest = flags.drop_first();
        let tp = taking_part(flags, mode);
        let tr = taking_part(rest, mode);
        if !selected(flags[0], mode) {
            lemma_modify_flags_rewrite(acc, rest, mode);
            assert(tp =~= tr);
        } else if let Ok(g) = modify_flag(flags[0], mode) {
            lemma_modify_flags_rewrite(acc.push(g), rest, mode);
            assert(tp =~= seq![flags[0]] + tr);
            if let Ok(gs) = modify_flags(acc, flags, mode) {
                assert forall|k: int| 0 <= k < acc.len() implies #[trigger] gs[k] == acc[k] by {
                    assert(acc.push(g)[k] == acc[k]);
                }
                assert forall|m: int| 0 <= m < tp.len() implies rewritten_for(
                    tp[m],
                    #[trigger] gs[acc.len() + m],
                    mode,
                ) by {
                    if m == 0 {
                        assert(acc.push(g)[acc.len() as int] == g);
                        assert(gs[acc.len() + 0int] == g);
                    } else {
                        assert(tp[m] == tr[m - 1]);
                        assert(acc.push(g).len() + (m - 1) == acc.len() + m);
                    }
                }
            }
        }
    } else {
        assert(taking_part(flags, mode).len() == 0);
    }
}

/// The flags of a library of a mode are, in order, what that mode makes of
/// each flag taking part in it: in force-read-only mode each non-exported
/// flag with read-only permission and no storage, its state and fixed
/// read-only mark kept; in exported mode each exported flag made disabled,
/// read-write, not fixed read-only and stored by aconfigd; in the other
/// modes every flag itself.
pub proof fn lemma_library_flags_rewritten(flags: Seq<ParsedFlagView>, mode: CodegenMode)
    ensures
        spec_modify_for_mode(flags, mode) matches Ok(gs) ==> {
            &&& gs.len() == taking_part(flags, mode).len()
            &&& forall|m: int|
                0 <= m < gs.len() ==> rewritten_for(taking_part(flags, mode)[m], #[trigger] gs[m], mode)
        },
{
    lemma_modify_flags_rewrite(Seq::empty(), flags, mode);
    if let Ok(gs) = spec_modify_for_mode(flags, mode) {
        assert forall|m: int| 0 <= m < gs.len() implies rewritten_for(
            taking_part(flags, mode)[m],
            #[trigger] gs[m],
            mode,
        ) by {
            assert(gs[Seq::<ParsedFlagView>::empty().len() + m] == gs[m]);
        }
    }
}

proof fn lemma_count_included_push(s: Seq<ParsedFlagView>, a: ParsedFlagView)
    ensures
        count_included(s.push(a)) == count_included(s) + if should_include(a) {
            1nat
        } else {
            0nat
        },
    decreases s.len(),
{
    if s.len() == 0 {
        assert(s.push(a)[0] == a);
        assert(s.push(a).drop_first() =~= Seq::<ParsedFlagView>::empty());
        assert(count_included(s.push(a).drop_first()) == 0);
    } else {
        assert(s.push(a)[0] == s[0]);
        assert(s.push(a).drop_first() =~= s.drop_first().push(a));
        lemma_count_included_push(s.drop_first(), a);
    }
}

proof fn lemma_count_included_take(s: Seq<ParsedFlagView>, a: int, b: int)
    requires
        0 <= a <= b <= s.len(),
    ensures
        count_included(s.take(a)) <= count_included(s.take(b)),
        a < b && should_include(s[a]) ==> count_included(s.take(a)) < count_included(s.take(b)),
    decreases b - a,
{
    if a < b {
        lemma_count_included_take(s, a + 1, b);
        assert(s.take(a + 1) =~= s.take(a).push(s[a]));
        lemma_count_included_push(s.take(a), s[a]);
    }
}

/// The ids assigned to flags with distinct names are dense: the keys are
/// exactly the names of the flags managed by aconfigd; the flag managed by
/// aconfigd at position `i` gets the number of such flags before it; so
/// the ids are 0, 1, ..., k - 1 for the k managed flags, in order, each
/// once, and all below `u16::MAX`.
pub proof fn lemma_assigned_ids_are_dense(package: Seq<char>, flags: Seq<ParsedFlagView>)
    requires
        names_unique(flags),
    ensures
        assign_ids(Map::empty(), 0, package, flags) matches Ok(ids) ==> {
            &&& forall|k: Seq<char>|
                #[trigger] ids.contains_key(k) <==> exists|i: int|
                    0 <= i < flags.len() && (#[trigger] flags[i]).name == k && should_include(
                        flags[i],
                    )
            &&& forall|i: int|
                0 <= i < flags.len() && should_include(#[trigger] flags[i]) ==> ids[flags[i].name]
                    == count_included(flags.take(i)) && count_included(flags.take(i))
                    < count_included(flags) && count_included(flags.take(i)) < u16::MAX
            &&& forall|i: int, j: int|
                0 <= i < j < flags.len() && should_include(#[trigger] flags[i]) && should_include(
                    #[trigger] flags[j],
                ) ==> ids[flags[i].name] < ids[flags[j].name]
        },
{
    lemma_assign_ids_offsets(Map::empty(), 0, package, flags);
    if let Ok(ids) = assign_ids(Map::empty(), 0, package, flags) {
        assert(flags.take(flags.len() as int) =~= flags);
        assert forall|k: Seq<char>| #[trigger] ids.contains_key(k) implies exists|i: int|
            0 <= i < flags.len() && (#[trigger] flags[i]).name == k && should_include(flags[i]) by {
            if !(exists|i: int| 0 <= i < flags.len() && (#[trigger] flags[i]).name == k) {
                assert(!ids.contains_key(k));
            }
            let i = choose|i: int| 0 <= i < flags.len() && (#[trigger] flags[i]).name == k;
            if !should_include(flags[i]) {
                assert(!ids.contains_key(flags[i].name));
            }
        }
        assert forall|i: int|
            0 <= i < flags.len() && should_include(#[trigger] flags[i]) implies ids[flags[i].name]
            == count_included(flags.take(i)) && count_included(flags.take(i)) < count_included(
            flags,
        ) && count_included(flags.take(i)) < u16::MAX by {
            lemma_count_included_take(flags, i, flags.len() as int);
        }
        assert forall|i: int, j: int|
            0 <= i < j < flags.len() && should_include(#[trigger] flags[i]) && should_include(
                #[trigger] flags[j],
            ) implies ids[flags[i].name] < ids[flags[j].name] by {
            lemma_count_included_take(flags, i, j);
            assert(count_included(flags.take(j)) < 65535);
        }
    }
}

/// Storage ids go to the flags managed by aconfigd: a flag gets an id
/// unless it is disabled, read-only and of one of the platform containers
/// "system", "system_ext", "product" and "vendor".
pub proof fn lemma_ids_leave_out_disabled_read_only_platform_flags(
    package: Seq<char>,
    flags: Seq<ParsedFlagView>,
)
    requires
        names_unique(flags),
    ensures
        assign_ids(Map::empty(), 0, package, flags) matches Ok(ids) ==> forall|i: int|
            0 <= i < flags.len() ==> (ids.contains_key(#[trigger] flags[i].name) <==> !(
            flags[i].state == FlagState::Disabled && flags[i].permission == FlagPermission::ReadOnly
                && (flags[i].container == "system"@ || flags[i].container == "system_ext"@
                || flags[i].container == "product"@ || flags[i].container == "vendor"@))),
{
    lemma_assigned_ids_are_dense(package, flags);
    if let Ok(ids) = assign_ids(Map::empty(), 0, package, flags) {
        assert forall|i: int| 0 <= i < flags.len() implies (ids.contains_key(
            #[trigger] flags[i].name,
        ) <==> should_include(flags[i])) by {
            if ids.contains_key(flags[i].name) {
                let j = choose|j: int|
                    0 <= j < flags.len() && (#[trigger] flags[j]).name == flags[i].name
                        && should_include(flags[j]);
                assert(j == i);
            }
        }
    }
}

/// A generated file: its path, relative to the output directory, and its
/// contents.
pub struct OutputFile {
    pub path: String,
    pub contents: Vec<u8>,
}

} // verus!
