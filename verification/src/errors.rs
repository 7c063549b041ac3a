//! Errors of flag parsing and code generation, and the messages that name
//! them.

use vstd::prelude::*;
use crate::codegen::{CodegenMode, mode_name};

verus! {

/// Why an aconfig operation refused its input.
#[derive(Clone, Debug)]
pub enum AconfigError {
    PackageMismatch { source: String, expected: String, got: String },
    ContainerMismatch { source: String, expected: String, got: String },
    ContainerNotAllowed { container: String, namespace: String },
    ExportedNotAllowed { fully_qualified_name: String, namespace: String },
    FlagAlreadyDeclared { name: String, source: String },
    FixedReadOnly { name: String },
    ReadWriteNotAllowed { name: String },
    MissingMetadata,
    NoFlagsForMode { mode: CodegenMode },
    FlagNotInPackage,
    TooManyFlags,
    NoUniquePackage,
    NoUniquePackageForFingerprint,
    ExportedCppDisabled,
    ExportedRustDisabled,
    UnexpectedFlagId { fully_qualified_name: String },
    MissingFlagId { fully_qualified_name: String },
    DeviceConfigInNativeCodegen { fully_qualified_name: String },
    NoFlags,
    InvalidHeader,
    BadPackage,
    BadFlagName,
}

pub enum AconfigErrorView {
    PackageMismatch { source: Seq<char>, expected: Seq<char>, got: Seq<char> },
    ContainerMismatch { source: Seq<char>, expected: Seq<char>, got: Seq<char> },
    ContainerNotAllowed { container: Seq<char>, namespace: Seq<char> },
    ExportedNotAllowed { fully_qualified_name: Seq<char>, namespace: Seq<char> },
    FlagAlreadyDeclared { name: Seq<char>, source: Seq<char> },
    FixedReadOnly { name: Seq<char> },
    ReadWriteNotAllowed { name: Seq<char> },
    MissingMetadata,
    NoFlagsForMode { mode: CodegenMode },
    FlagNotInPackage,
    TooManyFlags,
    NoUniquePackage,
    NoUniquePackageForFingerprint,
    ExportedCppDisabled,
    ExportedRustDisabled,
    UnexpectedFlagId { fully_qualified_name: Seq<char> },
    MissingFlagId { fully_qualified_name: Seq<char> },
    DeviceConfigInNativeCodegen { fully_qualified_name: Seq<char> },
    NoFlags,
    InvalidHeader,
    BadPackage,
    BadFlagName,
}

impl View for AconfigError {
    type V = AconfigErrorView;

    open spec fn view(&self) -> AconfigErrorView {
        match self {
            AconfigError::PackageMismatch { source, expected, got } => AconfigErrorView::PackageMismatch {
                source: source@,
                expected: expected@,
                got: got@,
            },
            AconfigError::ContainerMismatch {
                source,
                expected,
                got,
            } => AconfigErrorView::ContainerMismatch { source: source@, expected: expected@, got: got@ },
            AconfigError::ContainerNotAllowed {
                container,
                namespace,
            } => AconfigErrorView::ContainerNotAllowed { container: container@, namespace: namespace@ },
            AconfigError::ExportedNotAllowed {
                fully_qualified_name,
                namespace,
            } => AconfigErrorView::ExportedNotAllowed {
                fully_qualified_name: fully_qualified_name@,
                namespace: namespace@,
            },
            AconfigError::FlagAlreadyDeclared {
                name,
                source,
            } => AconfigErrorView::FlagAlreadyDeclared { name: name@, source: source@ },
            AconfigError::FixedReadOnly { name } => AconfigErrorView::FixedReadOnly { name: name@ },
            AconfigError::ReadWriteNotAllowed { name } => AconfigErrorView::ReadWriteNotAllowed {
                name: name@,
            },
            AconfigError::MissingMetadata => AconfigErrorView::MissingMetadata,
            AconfigError::NoFlagsForMode { mode } => AconfigErrorView::NoFlagsForMode { mode: *mode },
            AconfigError::FlagNotInPackage => AconfigErrorView::FlagNotInPackage,
            AconfigError::TooManyFlags => AconfigErrorView::TooManyFlags,
            AconfigError::NoUniquePackage => AconfigErrorView::NoUniquePackage,
            AconfigError::NoUniquePackageForFingerprint => AconfigErrorView::NoUniquePackageForFingerprint,
            AconfigError::ExportedCppDisabled => AconfigErrorView::ExportedCppDisabled,
            AconfigError::ExportedRustDisabled => AconfigErrorView::ExportedRustDisabled,
            AconfigError::UnexpectedFlagId { fully_qualified_name } => AconfigErrorView::UnexpectedFlagId {
                fully_qualified_name: fully_qualified_name@,
            },
            AconfigError::MissingFlagId { fully_qualified_name } => AconfigErrorView::MissingFlagId {
                fully_qualified_name: fully_qualified_name@,
            },
            AconfigError::DeviceConfigInNativeCodegen {
                fully_qualified_name,
            } => AconfigErrorView::DeviceConfigInNativeCodegen {
                fully_qualified_name: fully_qualified_name@,
            },
            AconfigError::NoFlags => AconfigErrorView::NoFlags,
            AconfigError::InvalidHeader => AconfigErrorView::InvalidHeader,
            AconfigError::BadPackage => AconfigErrorView::BadPackage,
            AconfigError::BadFlagName => AconfigErrorView::BadFlagName,
        }
    }
}

/// A result with its error taken by its view.
pub open spec fn err_view<T>(r: Result<T, AconfigError>) -> Result<T, AconfigErrorView> {
    match r {
        Ok(v) => Ok(v),
        Err(e) => Err(e@),
    }
}

/// The message by which each error is reported.
pub open spec fn error_message(e: AconfigErrorView) -> Seq<char> {
    match e {
        AconfigErrorView::PackageMismatch { source, expected, got } => "failed to parse "@ + source
            + ": expected package "@ + expected + ", got "@ + got,
        AconfigErrorView::ContainerMismatch { source, expected, got } => "failed to parse "@
            + source + ": expected container "@ + expected + ", got "@ + got,
        AconfigErrorView::ContainerNotAllowed { container, namespace } => "Creating "@ + container
            + " container flag in namespace "@ + namespace + " is not allowed"@,
        AconfigErrorView::ExportedNotAllowed { fully_qualified_name, namespace } =>
            "Creating exported flag "@ + fully_qualified_name + " in namespace "@ + namespace
            + " is not allowed"@,
        AconfigErrorView::FlagAlreadyDeclared { name, source } => "failed to declare flag "@
            + name + " from "@ + source + ": flag already declared"@,
        AconfigErrorView::FixedReadOnly { name } => "failed to set permission of flag "@ + name
            + ", since this flag is fixed read only flag"@,
        AconfigErrorView::ReadWriteNotAllowed { name } => "flag "@ + name
            + " has permission READ_WRITE, but allow_read_write is false"@,
        AconfigErrorView::MissingMetadata => "missing metadata"@,
        AconfigErrorView::NoFlagsForMode { mode } => mode_name(mode) + " library contains no "@
            + mode_name(mode) + " flags"@,
        AconfigErrorView::FlagNotInPackage => "encountered a flag not in current package"@,
        AconfigErrorView::TooManyFlags => "the number of flags in a package cannot exceed 65534"@,
        AconfigErrorView::NoUniquePackage =>
            "no parsed flags, or the parsed flags use different packages"@,
        AconfigErrorView::NoUniquePackageForFingerprint =>
            "No parsed flags, or the parsed flags use different packages."@,
        AconfigErrorView::ExportedCppDisabled =>
            "Exported mode for generated c/c++ flag library is disabled"@,
        AconfigErrorView::ExportedRustDisabled =>
            "Exported mode for generated rust flag library is disabled"@,
        AconfigErrorView::UnexpectedFlagId { fully_qualified_name } => "flag "@
            + fully_qualified_name + " should not have an assigned flag id in new storage file"@,
        AconfigErrorView::MissingFlagId { fully_qualified_name } => "flag "@ + fully_qualified_name
            + " should have an assigned flag id in new storage file"@,
        AconfigErrorView::DeviceConfigInNativeCodegen { fully_qualified_name } =>
            "device config storage backend cannot be used in native codegen for flag "@
            + fully_qualified_name,
        AconfigErrorView::NoFlags => "Condition failed: `class_elements.len() > 0`"@,
        AconfigErrorView::InvalidHeader =>
            "Condition failed: `codegen::is_valid_name_ident(&header)`"@,
        AconfigErrorView::BadPackage => "bad package"@,
        AconfigErrorView::BadFlagName => "bad flag name"@,
    }
}

fn join3(a: &str, b: &str, c: &str) -> (r: String)
    ensures
        r@ == a@ + b@ + c@,
{
    let mut r = String::from_str(a);
    r.append(b);
    r.append(c);
    r
}

fn join5(a: &str, b: &str, c: &str, d: &str, e: &str) -> (r: String)
    ensures
        r@ == a@ + b@ + c@ + d@ + e@,
{
    let mut r = join3(a, b, c);
    r.append(d);
    r.append(e);
    r
}

fn join6(a: &str, b: &str, c: &str, d: &str, e: &str, f: &str) -> (r: String)
    ensures
        r@ == a@ + b@ + c@ + d@ + e@ + f@,
{
    let mut r = join5(a, b, c, d, e);
    r.append(f);
    r
}

impl AconfigError {
    /// The message that reports this error.
    pub fn message(&self) -> (r: String)
        ensures
            r@ == error_message(self@),
    {
        match self {
            AconfigError::PackageMismatch { source, expected, got } => join6(
                "failed to parse ",
                source.as_str(),
                ": expected package ",
                expected.as_str(),
                ", got ",
                got.as_str(),
            ),
            AconfigError::ContainerMismatch { source, expected, got } => join6(
                "failed to parse ",
                source.as_str(),
                ": expected container ",
                expected.as_str(),
                ", got ",
                got.as_str(),
            ),
            AconfigError::ContainerNotAllowed { container, namespace } => join5(
                "Creating ",
                container.as_str(),
                " container flag in namespace ",
                namespace.as_str(),
                " is not allowed",
            ),
            AconfigError::ExportedNotAllowed { fully_qualified_name, namespace } => join5(
                "Creating exported flag ",
                fully_qualified_name.as_str(),
                " in namespace ",
                namespace.as_str(),
                " is not allowed",
            ),
            AconfigError::FlagAlreadyDeclared { name, source } => join5(
                "failed to declare flag ",
                name.as_str(),
                " from ",
                source.as_str(),
                ": flag already declared",
            ),
            AconfigError::FixedReadOnly { name } => join3(
                "failed to set permission of flag ",
                name.as_str(),
                ", since this flag is fixed read only flag",
            ),
            AconfigError::ReadWriteNotAllowed { name } => join3(
                "flag ",
                name.as_str(),
                " has permission READ_WRITE, but allow_read_write is false",
            ),
            AconfigError::MissingMetadata => String::from_str("missing metadata"),
            AconfigError::NoFlagsForMode { mode } => {
                let mut r = join3(mode.name(), " library contains no ", mode.name());
                r.append(" flags");
                r
            },
            AconfigError::FlagNotInPackage => String::from_str(
                "encountered a flag not in current package",
            ),
            AconfigError::TooManyFlags => String::from_str(
                "the number of flags in a package cannot exceed 65534",
            ),
            AconfigError::NoUniquePackage => String::from_str(
                "no parsed flags, or the parsed flags use different packages",
            ),
            AconfigError::NoUniquePackageForFingerprint => String::from_str(
                "No parsed flags, or the parsed flags use different packages.",
            ),
            AconfigError::ExportedCppDisabled => String::from_str(
                "Exported mode for generated c/c++ flag library is disabled",
            ),
            AconfigError::ExportedRustDisabled => String::from_str(
                "Exported mode for generated rust flag library is disabled",
            ),
            AconfigError::UnexpectedFlagId { fully_qualified_name } => join3(
                "flag ",
                fully_qualified_name.as_str(),
                " should not have an assigned flag id in new storage file",
            ),
            AconfigError::MissingFlagId { fully_qualified_name } => join3(
                "flag ",
                fully_qualified_name.as_str(),
                " should have an assigned flag id in new storage file",
            ),
            AconfigError::DeviceConfigInNativeCodegen { fully_qualified_name } => {
                let mut r = String::from_str(
                    "device config storage backend cannot be used in native codegen for flag ",
                );
                r.append(fully_qualified_name.as_str());
                r
            },
            AconfigError::NoFlags => String::from_str("Condition failed: `class_elements.len() > 0`"),
            AconfigError::InvalidHeader => String::from_str(
                "Condition failed: `codegen::is_valid_name_ident(&header)`",
            ),
            AconfigError::BadPackage => String::from_str("bad package"),
            AconfigError::BadFlagName => String::from_str("bad flag name"),
        }
    }
}

} // verus!
