//! The data from which the C/C++ flag library is rendered: one class
//! element per flag and the package-wide context.

use vstd::prelude::*;
use vstd::hash_map::StringHashMap;
use crate::codegen::{
    CodegenMode, create_device_config_ident, device_config_ident, get_flag_offset_in_storage_file,
    spec_flag_offset,
};
use crate::errors::{AconfigError, AconfigErrorView};
use crate::flags::{
    FlagPermission, FlagState, FlagStorageBackend, ParsedFlag, ParsedFlagView, flags_view,
    fully_qualified_name,
};
use crate::idents::{is_name_ident, is_package_ident, is_valid_name_ident, is_valid_package_ident};
use crate::text::{replace_char, replace_chars, to_uppercase, upper_case};

verus! {

/// What the C/C++ templates show of one flag.
pub struct ClassElement {
    pub readwrite_idx: i32,
    pub readwrite: bool,
    pub is_fixed_read_only: bool,
    pub default_value: String,
    pub flag_name: String,
    pub flag_macro: String,
    pub flag_offset: u16,
    pub device_config_namespace: String,
    pub device_config_flag: String,
    pub container: String,
}

pub struct ClassElementView {
    pub readwrite_idx: i32,
    pub readwrite: bool,
    pub is_fixed_read_only: bool,
    pub default_value: Seq<char>,
    pub flag_name: Seq<char>,
    pub flag_macro: Seq<char>,
    pub flag_offset: u16,
    pub device_config_namespace: Seq<char>,
    pub device_config_flag: Seq<char>,
    pub container: Seq<char>,
}

impl View for ClassElement {
    type V = ClassElementView;

    open spec fn view(&self) -> ClassElementView {
        ClassElementView {
            readwrite_idx: self.readwrite_idx,
            readwrite: self.readwrite,
            is_fixed_read_only: self.is_fixed_read_only,
            default_value: self.default_value@,
            flag_name: self.flag_name@,
            flag_macro: self.flag_macro@,
            flag_offset: self.flag_offset,
            device_config_namespace: self.device_config_namespace@,
            device_config_flag: self.device_config_flag@,
            container: self.container@,
        }
    }
}

pub open spec fn elements_view(v: Seq<ClassElement>) -> Seq<ClassElementView> {
    v.map_values(|e: ClassElement| e@)
}

/// What the C/C++ templates show of the package.
pub struct Context {
    pub header: String,
    pub package_macro: String,
    pub cpp_namespace: String,
    pub package: String,
    pub has_fixed_read_only: bool,
    pub readwrite: bool,
    pub readwrite_count: i32,
    pub is_test_mode: bool,
    pub class_elements: Vec<ClassElement>,
    pub container: String,
    pub use_package_fingerprint: bool,
    pub package_fingerprint: u64,
}

pub struct ContextView {
    pub header: Seq<char>,
    pub package_macro: Seq<char>,
    pub cpp_namespace: Seq<char>,
    pub package: Seq<char>,
    pub has_fixed_read_only: bool,
    pub readwrite: bool,
    pub readwrite_count: i32,
    pub is_test_mode: bool,
    pub class_elements: Seq<ClassElementView>,
    pub container: Seq<char>,
    pub use_package_fingerprint: bool,
    pub package_fingerprint: u64,
}

impl View for Context {
    type V = ContextView;

    open spec fn view(&self) -> ContextView {
        ContextView {
            header: self.header@,
            package_macro: self.package_macro@,
            cpp_namespace: self.cpp_namespace@,
            package: self.package@,
            has_fixed_read_only: self.has_fixed_read_only,
            readwrite: self.readwrite,
            readwrite_count: self.readwrite_count,
            is_test_mode: self.is_test_mode,
            class_elements: elements_view(self.class_elements@),
            container: self.container@,
            use_package_fingerprint: self.use_package_fingerprint,
            package_fingerprint: self.package_fingerprint,
        }
    }
}

/// The storage backend recorded in a flag's metadata, unspecified when it
/// has none.
pub open spec fn storage_of(f: ParsedFlagView) -> FlagStorageBackend {
    match f.metadata {
        Some(m) => m.storage,
        None => FlagStorageBackend::Unspecified,
    }
}

/// The class element of a flag, given the number of read-write flags before
/// it: read-write flags are numbered in order, other flags get -1; flags
/// stored in device config are refused.
pub open spec fn spec_class_element(
    package: Seq<char>,
    f: ParsedFlagView,
    ids: Map<Seq<char>, u16>,
    rw_before: int,
) -> Result<ClassElementView, AconfigErrorView> {
    if storage_of(f) == FlagStorageBackend::DeviceConfig {
        Err(
            AconfigErrorView::DeviceConfigInNativeCodegen {
                fully_qualified_name: fully_qualified_name(f),
            },
        )
    } else {
        match spec_flag_offset(ids, f) {
            Err(e) => Err(e),
            Ok(offset) => Ok(
                ClassElementView {
                    readwrite_idx: if f.permission == FlagPermission::ReadWrite {
                        rw_before as i32
                    } else {
                        -1i32
                    },
                    readwrite: f.permission == FlagPermission::ReadWrite,
                    is_fixed_read_only: f.is_fixed_read_only,
                    default_value: if f.state == FlagState::Enabled {
                        "true"@
                    } else {
                        "false"@
                    },
                    flag_name: f.name,
                    flag_macro: upper_case(f.name),
                    flag_offset: offset,
                    device_config_namespace: f.namespace,
                    device_config_flag: device_config_ident(package, f.name),
                    container: f.container,
                },
            ),
        }
    }
}

/// The class elements of `flags`, after `acc` and with `rw` read-write
/// flags before them, stopping at the first refused flag.
pub open spec fn class_elements(
    acc: Seq<ClassElementView>,
    rw: int,
    package: Seq<char>,
    flags: Seq<ParsedFlagView>,
    ids: Map<Seq<char>, u16>,
) -> Result<(Seq<ClassElementView>, int), AconfigErrorView>
    decreases flags.len(),
{
    if flags.len() == 0 {
        Ok((acc, rw))
    } else {
        match spec_class_element(package, flags[0], ids, rw) {
            Err(e) => Err(e),
            Ok(el) => class_elements(
                acc.push(el),
                if flags[0].permission == FlagPermission::ReadWrite {
                    rw + 1
                } else {
                    rw
                },
                package,
                flags.drop_first(),
                ids,
            ),
        }
    }
}

/// Whether some element is fixed read-only.
pub open spec fn any_fixed_read_only(els: Seq<ClassElementView>) -> bool {
    exists|i: int| 0 <= i < els.len() && (#[trigger] els[i]).is_fixed_read_only
}

/// The context of the C/C++ flag library of `package`.
#[verifier::opaque]
pub open spec fn spec_cpp_context(
    package: Seq<char>,
    flags: Seq<ParsedFlagView>,
    mode: CodegenMode,
    ids: Map<Seq<char>, u16>,
    fingerprint: Option<u64>,
) -> Result<ContextView, AconfigErrorView> {
    match class_elements(Seq::empty(), 0, package, flags, ids) {
        Err(e) => Err(e),
        Ok((els, rw)) => {
            let header = replace_char(package, '.', seq!['_']);
            if els.len() == 0 {
                Err(AconfigErrorView::NoFlags)
            } else if !is_name_ident(header) {
                Err(AconfigErrorView::InvalidHeader)
            } else {
                Ok(
                    ContextView {
                        header: header,
                        package_macro: upper_case(header),
                        cpp_namespace: replace_char(package, '.', seq![':', ':']),
                        package: package,
                        has_fixed_read_only: any_fixed_read_only(els),
                        readwrite: rw > 0,
                        readwrite_count: rw as i32,
                        is_test_mode: mode == CodegenMode::Test,
                        class_elements: els,
                        container: els[0].container,
                        use_package_fingerprint: fingerprint is Some,
                        package_fingerprint: match fingerprint {
                            Some(v) => v,
                            None => 0,
                        },
                    },
                )
            }
        },
    }
}

/// The number of read-write flags.
pub open spec fn count_read_write(flags: Seq<ParsedFlagView>) -> int
    decreases flags.len(),
{
    if flags.len() == 0 {
        0
    } else {
        (if flags[0].permission == FlagPermission::ReadWrite {
            1int
        } else {
            0int
        }) + count_read_write(flags.drop_first())
    }
}

proof fn lemma_count_read_write_bounds(flags: Seq<ParsedFlagView>)
    ensures
        0 <= count_read_write(flags) <= flags.len(),
    decreases flags.len(),
{
    if flags.len() > 0 {
        lemma_count_read_write_bounds(flags.drop_first());
    }
}

proof fn lemma_class_elements_numbering(
    acc: Seq<ClassElementView>,
    rw: int,
    package: Seq<char>,
    flags: Seq<ParsedFlagView>,
    ids: Map<Seq<char>, u16>,
)
    requires
        0 <= rw,
        rw + flags.len() < 0x7fff_ffff,
    ensures
        class_elements(acc, rw, package, flags, ids) matches Ok((els, rw2)) ==> {
            &&& els.len() == acc.len() + flags.len()
            &&& els.take(acc.len() as int) == acc
            &&& rw2 == rw + count_read_write(flags)
            &&& forall|i: int|
                0 <= i < flags.len() ==> (#[trigger] els[acc.len() + i]).flag_name == flags[i].name
                    && els[acc.len() + i].readwrite == (flags[i].permission
                    == FlagPermission::ReadWrite) && els[acc.len() + i].readwrite_idx == if flags[i].permission
                    == FlagPermission::ReadWrite {
                    (rw + count_read_write(flags.take(i))) as i32
                } else {
                    -1i32
                }
        },
    decreases flags.len(),
{
    if flags.len() > 0 {
        if let Ok(el) = spec_class_element(package, flags[0], ids, rw) {
            let rw1 = if flags[0].permission == FlagPermission::ReadWrite {
                rw + 1
            } else {
                rw
            };
            let rest = flags.drop_first();
            lemma_class_elements_numbering(acc.push(el), rw1, package, rest, ids);
            if let Ok((els, rw2)) = class_elements(acc.push(el), rw1, package, rest, ids) {
                assert(els.take(acc.len() as int) == els.take(acc.len() as int + 1).take(acc.len() as int));
                assert forall|i: int| 0 <= i < flags.len() implies (#[trigger] els[acc.len()
                    + i]).flag_name == flags[i].name && els[acc.len() + i].readwrite == (
                flags[i].permission == FlagPermission::ReadWrite) && els[acc.len()
                    + i].readwrite_idx == if flags[i].permission == FlagPermission::ReadWrite {
                    (rw + count_read_write(flags.take(i))) as i32
                } else {
                    -1i32
                } by {
                    if i == 0 {
                        assert(els[acc.len() as int] == els.take(acc.len() as int + 1)[acc.len() as int]);
                        assert(flags.take(0) =~= Seq::<ParsedFlagView>::empty());
                    } else {
                        assert(rest[i - 1] == flags[i]);
                        assert(acc.push(el).len() + (i - 1) == acc.len() + i);
                        assert(flags.take(i).drop_first() =~= rest.take(i - 1));
                        assert(flags.take(i)[0] == flags[0]);
                    }
                }
            }
        }
    } else {
        if let Ok((els, rw2)) = class_elements(acc, rw, package, flags, ids) {
            assert(els.take(acc.len() as int) == acc);
        }
    }
}

/// Read-write flags are numbered in order: the context holds one element
/// per flag, in order, each read-write flag's element carries the number
/// of read-write flags before it, every other element -1, and the context
/// counts the read-write flags.
pub proof fn lemma_read_write_numbering(
    package: Seq<char>,
    flags: Seq<ParsedFlagView>,
    mode: CodegenMode,
    ids: Map<Seq<char>, u16>,
    fingerprint: Option<u64>,
)
    requires
        flags.len() < 0x7fff_ffff,
    ensures
        spec_cpp_context(package, flags, mode, ids, fingerprint) matches Ok(c) ==> {
            &&& c.class_elements.len() == flags.len()
            &&& c.readwrite_count == count_read_write(flags)
            &&& c.readwrite == (count_read_write(flags) > 0)
            &&& forall|i: int|
                0 <= i < flags.len() ==> (#[trigger] c.class_elements[i]).flag_name == flags[i].name
                    && c.class_elements[i].readwrite == (flags[i].permission
                    == FlagPermission::ReadWrite) && c.class_elements[i].readwrite_idx == if flags[i].permission
                    == FlagPermission::ReadWrite {
                    count_read_write(flags.take(i)) as i32
                } else {
                    -1i32
                }
        },
{
    reveal(spec_cpp_context);
    lemma_class_elements_numbering(Seq::empty(), 0, package, flags, ids);
    lemma_count_read_write_bounds(flags);
    if let Ok(c) = spec_cpp_context(package, flags, mode, ids, fingerprint) {
        if let Ok((els, rw)) = class_elements(Seq::empty(), 0, package, flags, ids) {
            assert forall|i: int| 0 <= i < flags.len() implies (
            #[trigger] c.class_elements[i]).flag_name == flags[i].name
                && c.class_elements[i].readwrite == (flags[i].permission
                == FlagPermission::ReadWrite) && c.class_elements[i].readwrite_idx == if flags[i].permission
                == FlagPermission::ReadWrite {
                count_read_write(flags.take(i)) as i32
            } else {
                -1i32
            } by {
                assert(0 + i == i);
                assert(c.class_elements[i] == els[0 + i]);
            }
        }
    }
}

/// Building the class elements reaches a flag whose device config
/// identifier cannot be made (package or flag name not a valid identifier)
/// before any element is refused: flag parsing rules that out, and code
/// generation aborts there.
pub open spec fn reaches_bad_ident(
    package: Seq<char>,
    flags: Seq<ParsedFlagView>,
    ids: Map<Seq<char>, u16>,
) -> bool
    decreases flags.len(),
{
    if flags.len() == 0 {
        false
    } else if storage_of(flags[0]) == FlagStorageBackend::DeviceConfig || spec_flag_offset(
        ids,
        flags[0],
    ) is Err {
        false
    } else if !(is_package_ident(package) && is_name_ident(flags[0].name)) {
        true
    } else {
        reaches_bad_ident(package, flags.drop_first(), ids)
    }
}

/// What C/C++ code generation assumes of its input: it reaches no invalid
/// identifier, and the flags fit the read-write counter.
pub open spec fn cpp_inputs_valid(
    package: Seq<char>,
    flags: Seq<ParsedFlagView>,
    ids: Map<Seq<char>, u16>,
) -> bool {
    !reaches_bad_ident(package, flags, ids) && flags.len() < 0x7fff_ffff
}

/// Whether C/C++ code generation would abort on these inputs: the check made
/// before `generate_cpp_code`.
pub fn cpp_codegen_aborts(package: &str, flags: &Vec<ParsedFlag>, flag_ids: &StringHashMap<u16>) -> (r:
    bool)
    ensures
        r == !cpp_inputs_valid(package@, flags_view(flags@), flag_ids@),
{
    let ghost fv = flags_view(flags@);
    if flags.len() >= 0x7fff_ffff {
        return true;
    }
    let package_ok = is_valid_package_ident(package);
    let mut i: usize = 0;
    assert(fv.skip(0) == fv);
    while i < flags.len()
        invariant
            i <= flags.len(),
            fv == flags_view(flags@),
            flags.len() < 0x7fff_ffff,
            package_ok == is_package_ident(package@),
            reaches_bad_ident(package@, fv, flag_ids@) == reaches_bad_ident(
                package@,
                fv.skip(i as int),
                flag_ids@,
            ),
        decreases flags.len() - i,
    {
        let ghost rest = fv.skip(i as int);
        assert(rest[0] == fv[i as int]);
        assert(rest.drop_first() == fv.skip(i + 1));
        assert(fv[i as int] == flags@[i as int]@);
        let pf = &flags[i];
        let is_device_config = match pf.metadata {
            Some(m) => m.storage == FlagStorageBackend::DeviceConfig,
            None => false,
        };
        let offset = get_flag_offset_in_storage_file(flag_ids, pf);
        if is_device_config || offset.is_err() {
            assert(storage_of(rest[0]) == FlagStorageBackend::DeviceConfig || spec_flag_offset(
                flag_ids@,
                rest[0],
            ) is Err);
            assert(!reaches_bad_ident(package@, rest, flag_ids@));
            return false;
        }
        if !package_ok || !is_valid_name_ident(pf.name.as_str()) {
            return true;
        }
        i = i + 1;
    }
    assert(fv.skip(i as int) == Seq::<ParsedFlagView>::empty());
    false
}

fn create_class_element(
    package: &str,
    pf: &ParsedFlag,
    flag_ids: &StringHashMap<u16>,
    rw_count: &mut i32,
) -> (r: Result<ClassElement, AconfigError>)
    requires
        storage_of(pf@) == FlagStorageBackend::DeviceConfig || spec_flag_offset(flag_ids@, pf@) is Err
            || (is_package_ident(package@) && is_name_ident(pf.name@)),
        0 <= *old(rw_count) < 0x7fff_ffff,
    ensures
        match spec_class_element(package@, pf@, flag_ids@, *old(rw_count) as int) {
            Ok(el) => r is Ok && r->Ok_0@ == el && *final(rw_count) == *old(rw_count) + (
            if pf.permission == FlagPermission::ReadWrite {
                1int
            } else {
                0int
            }),
            Err(e) => r is Err && r->Err_0@ == e && *final(rw_count) == *old(rw_count) + (
            if storage_of(pf@) != FlagStorageBackend::DeviceConfig && pf.permission
                == FlagPermission::ReadWrite {
                1int
            } else {
                0int
            }),
        },
{
    let is_device_config = match pf.metadata {
        Some(m) => m.storage == FlagStorageBackend::DeviceConfig,
        None => false,
    };
    if is_device_config {
        return Err(
            AconfigError::DeviceConfigInNativeCodegen {
                fully_qualified_name: pf.fully_qualified_name(),
            },
        );
    }
    let readwrite = pf.permission == FlagPermission::ReadWrite;
    let readwrite_idx = if readwrite {
        let index = *rw_count;
        *rw_count = *rw_count + 1;
        index
    } else {
        -1
    };
    let default_value = if pf.state == FlagState::Enabled {
        String::from_str("true")
    } else {
        String::from_str("false")
    };
    let flag_offset = match get_flag_offset_in_storage_file(flag_ids, pf) {
        Ok(o) => o,
        Err(e) => {
            return Err(e);
        },
    };
    let device_config_flag = match create_device_config_ident(package, pf.name.as_str()) {
        Ok(s) => s,
        Err(e) => {
            return Err(e);
        },
    };
    Ok(
        ClassElement {
            readwrite_idx,
            readwrite,
            is_fixed_read_only: pf.is_fixed_read_only,
            default_value,
            flag_name: pf.name.clone(),
            flag_macro: to_uppercase(pf.name.as_str()),
            flag_offset,
            device_config_namespace: pf.namespace.clone(),
            device_config_flag,
            container: pf.container.clone(),
        },
    )
}

/// The context from which the C/C++ header and source of `package` are
/// rendered.
#[verifier::loop_isolation(false)]
pub fn generate_cpp_code(
    package: &str,
    parsed_flags: Vec<ParsedFlag>,
    codegen_mode: CodegenMode,
    flag_ids: StringHashMap<u16>,
    package_fingerprint: Option<u64>,
) -> (r: Result<Context, AconfigError>)
    requires
        cpp_inputs_valid(package@, flags_view(parsed_flags@), flag_ids@),
    ensures
        match spec_cpp_context(
            package@,
            flags_view(parsed_flags@),
            codegen_mode,
            flag_ids@,
            package_fingerprint,
        ) {
            Ok(c) => r is Ok && r->Ok_0@ == c,
            Err(e) => r is Err && r->Err_0@ == e,
        },
{
    reveal(spec_cpp_context);
    let ghost fv = flags_view(parsed_flags@);
    let ghost goal = class_elements(Seq::empty(), 0, package@, fv, flag_ids@);
    let mut readwrite_count: i32 = 0;
    let mut elements: Vec<ClassElement> = Vec::new();
    let mut i: usize = 0;
    assert(fv.skip(0) == fv);
    assert(elements_view(elements@) == Seq::<ClassElementView>::empty());
    while i < parsed_flags.len()
        invariant
            i <= parsed_flags.len(),
            fv == flags_view(parsed_flags@),
            fv.len() < 0x7fff_ffff,
            !reaches_bad_ident(package@, fv.skip(i as int), flag_ids@),
            0 <= readwrite_count <= i,
            goal == class_elements(Seq::empty(), 0, package@, fv, flag_ids@),
            goal == class_elements(
                elements_view(elements@),
                readwrite_count as int,
                package@,
                fv.skip(i as int),
                flag_ids@,
            ),
        decreases parsed_flags.len() - i,
    {
        let ghost rest = fv.skip(i as int);
        assert(rest[0] == fv[i as int]);
        assert(rest.drop_first() == fv.skip(i + 1));
        match create_class_element(package, &parsed_flags[i], &flag_ids, &mut readwrite_count) {
            Err(e) => {
                return Err(e);
            },
            Ok(el) => {
                let ghost e0 = elements@;
                elements.push(el);
                assert(elements_view(elements@) == elements_view(e0).push(el@));
            },
        }
        i = i + 1;
    }
    assert(fv.skip(i as int) == Seq::<ParsedFlagView>::empty());
    let mut has_fixed_read_only = false;
    let mut j: usize = 0;
    while j < elements.len()
        invariant
            j <= elements.len(),
            has_fixed_read_only == exists|k: int|
                0 <= k < j && (#[trigger] elements_view(elements@)[k]).is_fixed_read_only,
        decreases elements.len() - j,
    {
        if elements[j].is_fixed_read_only {
            assert(elements_view(elements@)[j as int].is_fixed_read_only);
            has_fixed_read_only = true;
        }
        j = j + 1;
    }
    let header = replace_chars(package, '.', "_");
    let package_macro = to_uppercase(header.as_str());
    let cpp_namespace = replace_chars(package, '.', "::");
    proof {
        reveal_strlit("_");
        reveal_strlit("::");
        assert("_"@ =~= seq!['_']);
        assert("::"@ =~= seq![':', ':']);
    }
    if elements.len() == 0 {
        return Err(AconfigError::NoFlags);
    }
    let container = elements[0].container.clone();
    if !is_valid_name_ident(header.as_str()) {
        return Err(AconfigError::InvalidHeader);
    }
    let use_package_fingerprint = package_fingerprint.is_some();
    let fingerprint_value = match package_fingerprint {
        Some(v) => v,
        None => 0,
    };
    Ok(
        Context {
            header,
            package_macro,
            cpp_namespace,
            package: String::from_str(package),
            has_fixed_read_only,
            readwrite: readwrite_count > 0,
            readwrite_count,
            is_test_mode: codegen_mode == CodegenMode::Test,
            class_elements: elements,
            container,
            use_package_fingerprint,
            package_fingerprint: fingerprint_value,
        },
    )
}

/// A file of the generated library: its name, the template it is rendered
/// from and the directory it goes to.
/// The class element `e` is that of the flag `f`: it carries the flag's
/// name, its fixed read-only mark, whether it is read-write, its default
/// value (`true` when enabled), its namespace and its container.
pub open spec fn element_of(e: ClassElementView, f: ParsedFlagView) -> bool {
    &&& e.flag_name == f.name
    &&& e.is_fixed_read_only == f.is_fixed_read_only
    &&& e.readwrite == (f.permission == FlagPermission::ReadWrite)
    &&& e.default_value == if f.state == FlagState::Enabled {
        "true"@
    } else {
        "false"@
    }
    &&& e.device_config_namespace == f.namespace
    &&& e.container == f.container
}

proof fn lemma_class_elements_shape(
    acc: Seq<ClassElementView>,
    rw: int,
    package: Seq<char>,
    flags: Seq<ParsedFlagView>,
    ids: Map<Seq<char>, u16>,
)
    ensures
        class_elements(acc, rw, package, flags, ids) matches Ok((els, n)) ==> {
            &&& els.len() == acc.len() + flags.len()
            &&& forall|k: int| 0 <= k < acc.len() ==> #[trigger] els[k] == acc[k]
            &&& forall|k: int|
                0 <= k < flags.len() ==> element_of(#[trigger] els[acc.len() + k], flags[k])
        },
        (exists|i: int|
            0 <= i < flags.len() && storage_of(#[trigger] flags[i])
                == FlagStorageBackend::DeviceConfig) ==> class_elements(
            acc,
            rw,
            package,
            flags,
            ids,
        ) is Err,
    decreases flags.len(),
{
    if flags.len() > 0 {
        let next_rw = if flags[0].permission == FlagPermission::ReadWrite {
            rw + 1
        } else {
            rw
        };
        if let Ok(el) = spec_class_element(package, flags[0], ids, rw) {
            lemma_class_elements_shape(acc.push(el), next_rw, package, flags.drop_first(), ids);
            if let Ok((els, n)) = class_elements(acc, rw, package, flags, ids) {
                assert forall|k: int| 0 <= k < acc.len() implies #[trigger] els[k] == acc[k] by {
                    assert(acc.push(el)[k] == acc[k]);
                }
                assert forall|k: int| 0 <= k < flags.len() implies element_of(
                    #[trigger] els[acc.len() + k],
                    flags[k],
                ) by {
                    if k == 0 {
                        assert(acc.push(el)[acc.len() as int] == el);
                    } else {
                        assert(flags.drop_first()[k - 1] == flags[k]);
                        assert(acc.push(el).len() + (k - 1) == acc.len() + k);
                    }
                }
            }
            if exists|i: int|
                0 <= i < flags.len() && storage_of(#[trigger] flags[i])
                    == FlagStorageBackend::DeviceConfig {
                let i = choose|i: int|
                    0 <= i < flags.len() && storage_of(#[trigger] flags[i])
                        == FlagStorageBackend::DeviceConfig;
                assert(i != 0);
                assert(flags.drop_first()[i - 1] == flags[i]);
            }
        }
    }
}

/// The shape of the C/C++ library of a package: its header name, from which
/// `cpp_file_specs` names the files `include/{header}.h` and `{header}.cc`,
/// is the package with each `.` replaced by `_`; it has one class element
/// for each flag, in order, carrying that flag's name, fixed read-only mark,
/// read-write mark, default value, namespace and container. Without flags, or with a flag stored in device
/// config, there is no library.
pub proof fn lemma_cpp_context_shape(
    package: Seq<char>,
    flags: Seq<ParsedFlagView>,
    mode: CodegenMode,
    ids: Map<Seq<char>, u16>,
    fingerprint: Option<u64>,
)
    ensures
        spec_cpp_context(package, flags, mode, ids, fingerprint) matches Ok(c) ==> {
            &&& c.header == replace_char(package, '.', seq!['_'])
            &&& c.class_elements.len() == flags.len()
            &&& forall|k: int|
                0 <= k < flags.len() ==> element_of(#[trigger] c.class_elements[k], flags[k])
        },
        flags.len() == 0 ==> spec_cpp_context(package, flags, mode, ids, fingerprint) == Err::<
            ContextView,
            AconfigErrorView,
        >(AconfigErrorView::NoFlags),
        (exists|i: int|
            0 <= i < flags.len() && storage_of(#[trigger] flags[i])
                == FlagStorageBackend::DeviceConfig) ==> spec_cpp_context(
            package,
            flags,
            mode,
            ids,
            fingerprint,
        ) is Err,
{
    reveal(spec_cpp_context);
    lemma_class_elements_shape(Seq::empty(), 0, package, flags, ids);
    if let Ok((els, n)) = class_elements(Seq::empty(), 0, package, flags, ids) {
        assert forall|k: int| 0 <= k < flags.len() implies element_of(#[trigger] els[k], flags[k]) by {
            assert(Seq::<ClassElementView>::empty().len() + k == k);
        }
    }
}

pub struct FileSpec {
    pub name: String,
    pub template: String,
    pub dir: String,
}

/// The files of the C/C++ library of `header`: the header `{header}.h` in
/// `include`, then the source `{header}.cc` at the top.
pub fn cpp_file_specs(header: &str, header_template: String, source_template: String) -> (r: Vec<
    FileSpec,
>)
    ensures
        r@.len() == 2,
        r@[0].name@ == header@ + ".h"@,
        r@[0].template == header_template,
        r@[0].dir@ == "include"@,
        r@[1].name@ == header@ + ".cc"@,
        r@[1].template == source_template,
        r@[1].dir@ == Seq::<char>::empty(),
{
    let mut header_name = String::from_str(header);
    header_name.append(".h");
    let mut source_name = String::from_str(header);
    source_name.append(".cc");
    let mut r: Vec<FileSpec> = Vec::new();
    r.push(FileSpec { name: header_name, template: header_template, dir: String::from_str("include") });
    r.push(FileSpec { name: source_name, template: source_template, dir: String::new() });
    r
}

} // verus!
