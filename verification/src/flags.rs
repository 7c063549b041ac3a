//! The flag model: declarations, values and parsed flags, each with a view
//! over mathematical values.

use vstd::prelude::*;
use crate::text::{strings_view, str_eq};

verus! {

/// Whether a flag is on or off.
#[derive(Clone, Copy, Debug, PartialEq, Eq, Structural)]
pub enum FlagState {
    Enabled,
    Disabled,
}

/// Whether a flag can be changed at run time.
#[derive(Clone, Copy, Debug, PartialEq, Eq, Structural)]
pub enum FlagPermission {
    ReadOnly,
    ReadWrite,
}

/// Why a flag exists.
#[derive(Clone, Copy, Debug, PartialEq, Eq, Structural)]
pub enum FlagPurpose {
    Unspecified,
    Feature,
    Bugfix,
}

/// Where the value of a flag is stored on the device.
#[derive(Clone, Copy, Debug, PartialEq, Eq, Structural)]
pub enum FlagStorageBackend {
    Unspecified,
    Aconfigd,
    DeviceConfig,
    NoBackend,
}

/// Metadata of a parsed flag.
#[derive(Clone, Copy, Debug, PartialEq, Eq, Structural)]
pub struct FlagMetadata {
    pub purpose: FlagPurpose,
    pub storage: FlagStorageBackend,
}

/// One step in the history of a flag's value: the file that set it and
/// what it set.
#[derive(Clone, Debug)]
pub struct Tracepoint {
    pub source: String,
    pub state: FlagState,
    pub permission: FlagPermission,
}

pub struct TracepointView {
    pub source: Seq<char>,
    pub state: FlagState,
    pub permission: FlagPermission,
}

impl View for Tracepoint {
    type V = TracepointView;

    open spec fn view(&self) -> TracepointView {
        TracepointView { source: self.source@, state: self.state, permission: self.permission }
    }
}

/// A flag after declarations and values have been merged.
#[derive(Clone, Debug)]
pub struct ParsedFlag {
    pub package: String,
    pub name: String,
    pub namespace: String,
    pub description: String,
    pub bug: Vec<String>,
    pub state: FlagState,
    pub permission: FlagPermission,
    pub trace: Vec<Tracepoint>,
    pub is_fixed_read_only: bool,
    pub is_exported: bool,
    pub container: String,
    pub metadata: Option<FlagMetadata>,
}

pub struct ParsedFlagView {
    pub package: Seq<char>,
    pub name: Seq<char>,
    pub namespace: Seq<char>,
    pub description: Seq<char>,
    pub bug: Seq<Seq<char>>,
    pub state: FlagState,
    pub permission: FlagPermission,
    pub trace: Seq<TracepointView>,
    pub is_fixed_read_only: bool,
    pub is_exported: bool,
    pub container: Seq<char>,
    pub metadata: Option<FlagMetadata>,
}

pub open spec fn traces_view(t: Seq<Tracepoint>) -> Seq<TracepointView> {
    t.map_values(|x: Tracepoint| x@)
}

impl View for ParsedFlag {
    type V = ParsedFlagView;

    open spec fn view(&self) -> ParsedFlagView {
        ParsedFlagView {
            package: self.package@,
            name: self.name@,
            namespace: self.namespace@,
            description: self.description@,
            bug: strings_view(self.bug@),
            state: self.state,
            permission: self.permission,
            trace: traces_view(self.trace@),
            is_fixed_read_only: self.is_fixed_read_only,
            is_exported: self.is_exported,
            container: self.container@,
            metadata: self.metadata,
        }
    }
}

/// The views of a sequence of parsed flags.
pub open spec fn flags_view(v: Seq<ParsedFlag>) -> Seq<ParsedFlagView> {
    v.map_values(|f: ParsedFlag| f@)
}

/// `package.name`, the name by which a flag is known across packages.
pub open spec fn fully_qualified_name(f: ParsedFlagView) -> Seq<char> {
    f.package + seq!['.'] + f.name
}

impl ParsedFlag {
    /// The fully qualified name `package.name` of this flag.
    pub fn fully_qualified_name(&self) -> (r: String)
        ensures
            r@ == fully_qualified_name(self@),
    {
        let mut r = self.package.clone();
        r.append(".");
        r.append(self.name.as_str());
        proof {
            reveal_strlit(".");
        }
        r
    }
}

/// The containers that make up the platform.
pub open spec fn is_platform_container(c: Seq<char>) -> bool {
    c == "system"@ || c == "system_ext"@ || c == "product"@ || c == "vendor"@
}

/// Whether `c` names one of the platform containers "system", "system_ext",
/// "product" and "vendor".
pub fn platform_container(c: &str) -> (r: bool)
    ensures
        r == is_platform_container(c@),
{
    str_eq(c, "system") || str_eq(c, "system_ext") || str_eq(c, "product") || str_eq(c, "vendor")
}

/// Whether the flag is managed by aconfigd: every flag except the disabled
/// read-only flags of platform containers.
pub open spec fn should_include(f: ParsedFlagView) -> bool {
    !(is_platform_container(f.container) && f.state == FlagState::Disabled && f.permission
        == FlagPermission::ReadOnly)
}

/// Whether the flag is managed by aconfigd and so gets an id in the storage
/// files.
pub fn should_include_flag(pf: &ParsedFlag) -> (r: bool)
    ensures
        r == should_include(pf@),
{
    let is_platform = platform_container(pf.container.as_str());
    let is_disabled_ro = pf.state == FlagState::Disabled && pf.permission == FlagPermission::ReadOnly;
    !(is_platform && is_disabled_ro)
}

/// One flag of a declarations file.
#[derive(Clone, Debug)]
pub struct FlagDeclaration {
    pub name: String,
    pub namespace: String,
    pub description: String,
    pub bug: Vec<String>,
    pub is_fixed_read_only: bool,
    pub is_exported: bool,
    pub purpose: FlagPurpose,
}

/// A declarations file: the flags of one package in one container.
#[derive(Clone, Debug)]
pub struct FlagDeclarations {
    pub package: String,
    pub container: String,
    pub flag: Vec<FlagDeclaration>,
}

/// One entry of a values file.
#[derive(Clone, Debug)]
pub struct FlagValue {
    pub package: String,
    pub name: String,
    pub state: FlagState,
    pub permission: FlagPermission,
}

/// A values file.
#[derive(Clone, Debug)]
pub struct FlagValues {
    pub flag_value: Vec<FlagValue>,
}

} // verus!
