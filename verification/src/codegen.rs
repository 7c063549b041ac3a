//! Code generation modes, identifiers of flags in device config, and
//! offsets of flags in the storage files.

use vstd::prelude::*;
use vstd::hash_map::StringHashMap;
use crate::errors::{AconfigError, AconfigErrorView, err_view};
use crate::flags::{ParsedFlag, ParsedFlagView, fully_qualified_name, should_include, should_include_flag};
use crate::idents::{is_name_ident, is_package_ident, is_valid_name_ident, is_valid_package_ident};

verus! {

/// The kind of flag library to generate.
#[derive(Clone, Copy, Debug, PartialEq, Eq, Structural)]
pub enum CodegenMode {
    Exported,
    ForceReadOnly,
    Production,
    Test,
}

/// The text by which a mode is named on the command line and in messages.
pub open spec fn mode_name(m: CodegenMode) -> Seq<char> {
    match m {
        CodegenMode::Exported => "exported"@,
        CodegenMode::ForceReadOnly => "force-read-only"@,
        CodegenMode::Production => "production"@,
        CodegenMode::Test => "test"@,
    }
}

impl CodegenMode {
    /// The name of the mode, as the command line and messages show it.
    pub fn name(&self) -> (r: &'static str)
        ensures
            r@ == mode_name(*self),
    {
        match self {
            CodegenMode::Exported => "exported",
            CodegenMode::ForceReadOnly => "force-read-only",
            CodegenMode::Production => "production",
            CodegenMode::Test => "test",
        }
    }
}

/// `package.flag_name`, the key of a flag in device config.
pub open spec fn device_config_ident(package: Seq<char>, flag_name: Seq<char>) -> Seq<char> {
    package + seq!['.'] + flag_name
}

/// The device config identifier of a flag; refused unless `package` is a
/// valid package identifier and `flag_name` a valid name identifier.
pub fn create_device_config_ident(package: &str, flag_name: &str) -> (r: Result<String, AconfigError>)
    ensures
        !is_package_ident(package@) ==> r is Err && r->Err_0@ == AconfigErrorView::BadPackage,
        is_package_ident(package@) && !is_name_ident(flag_name@) ==> r is Err && r->Err_0@
            == AconfigErrorView::BadFlagName,
        is_package_ident(package@) && is_name_ident(flag_name@) ==> r is Ok && r->Ok_0@
            == device_config_ident(package@, flag_name@),
{
    if !is_valid_package_ident(package) {
        return Err(AconfigError::BadPackage);
    }
    if !is_valid_name_ident(flag_name) {
        return Err(AconfigError::BadFlagName);
    }
    let mut s = String::from_str(package);
    s.append(".");
    s.append(flag_name);
    proof {
        reveal_strlit(".");
    }
    Ok(s)
}

/// The offset of a flag in the storage file: its assigned id when it is
/// managed by aconfigd, `u16::MAX` when it is not; an id where none belongs,
/// or none where one does, is an error.
pub open spec fn spec_flag_offset(ids: Map<Seq<char>, u16>, f: ParsedFlagView) -> Result<
    u16,
    AconfigErrorView,
> {
    if ids.contains_key(f.name) {
        if should_include(f) {
            Ok(ids[f.name])
        } else {
            Err(AconfigErrorView::UnexpectedFlagId { fully_qualified_name: fully_qualified_name(f) })
        }
    } else {
        if !should_include(f) {
            Ok(u16::MAX)
        } else {
            Err(AconfigErrorView::MissingFlagId { fully_qualified_name: fully_qualified_name(f) })
        }
    }
}

pub fn get_flag_offset_in_storage_file(flag_ids: &StringHashMap<u16>, pf: &ParsedFlag) -> (r: Result<
    u16,
    AconfigError,
>)
    ensures
        err_view(r) == spec_flag_offset(flag_ids@, pf@),
{
    match flag_ids.get(pf.name.as_str()) {
        Some(offset) => {
            if !should_include_flag(pf) {
                return Err(
                    AconfigError::UnexpectedFlagId { fully_qualified_name: pf.fully_qualified_name() },
                );
            }
            Ok(*offset)
        },
        None => {
            if should_include_flag(pf) {
                return Err(
                    AconfigError::MissingFlagId { fully_qualified_name: pf.fully_qualified_name() },
                );
            }
            Ok(u16::MAX)
        },
    }
}

} // verus!
