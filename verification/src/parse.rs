//! Building parsed flags from declarations and values files: default
//! state and permission, value overrides with their trace, storage backend
//! assignment, mainline beta namespace rules and permission policies.

use vstd::prelude::*;
use vstd::hash_map::StringHashMap;
use crate::errors::{AconfigError, AconfigErrorView};
use crate::flags::{
    FlagDeclaration, FlagDeclarations, FlagMetadata, FlagPermission, FlagPurpose, FlagState, FlagStorageBackend,
    FlagValue, FlagValues, ParsedFlag, ParsedFlagView, Tracepoint, TracepointView, flags_view,
    fully_qualified_name, is_platform_container, platform_container, traces_view,
};
use crate::text::{clone_strings, str_eq, strings_view};
use crate::sort::{flags_sorted, insert_flag, lemma_sorted_flags, sort_parsed_flags, sorted_flags};

verus! {

/// A file's name together with what was read from it.
pub struct Input<T> {
    pub source: String,
    pub content: T,
}

impl<T> Input<T> {
    /// The context by which a parse failure of this input is reported.
    pub fn error_context(&self) -> (r: String)
        ensures
            r@ == "failed to parse "@ + self.source@,
    {
        let mut r = String::from_str("failed to parse ");
        r.append(self.source.as_str());
        r
    }
}

/// The settings of one mainline beta namespace.
#[derive(Clone, Debug)]
pub struct NamespaceSetting {
    pub container: String,
    pub allow_exported: bool,
}

/// The mainline beta namespaces, by namespace name.
pub struct MainlineBetaNamespaces {
    pub namespaces: StringHashMap<NamespaceSetting>,
}

/// How the permission of new flags is chosen and which permissions are
/// allowed.
#[derive(Clone, Copy, Debug)]
pub struct ExtendedPermissionsOptions {
    pub default_permission: FlagPermission,
    pub allow_read_write: bool,
    pub force_read_only: bool,
}

/// The mainline beta namespaces as a map, when there are any.
pub open spec fn beta_view(b: Option<MainlineBetaNamespaces>) -> Option<
    Map<Seq<char>, NamespaceSetting>,
> {
    match b {
        Some(n) => Some(n.namespaces@),
        None => None,
    }
}

/// Whether the flag lives in a mainline beta namespace whose container is
/// the flag's own.
pub open spec fn is_beta_flag(
    beta: Option<Map<Seq<char>, NamespaceSetting>>,
    namespace: Seq<char>,
    container: Seq<char>,
) -> bool {
    match beta {
        Some(m) => m.contains_key(namespace) && m[namespace].container@ == container,
        None => false,
    }
}

/// The storage backend of a flag: none for read-only flags, device config
/// for mainline beta flags, aconfigd otherwise.
pub open spec fn storage_for(permission: FlagPermission, is_beta: bool) -> FlagStorageBackend {
    if permission == FlagPermission::ReadOnly {
        FlagStorageBackend::NoBackend
    } else if is_beta {
        FlagStorageBackend::DeviceConfig
    } else {
        FlagStorageBackend::Aconfigd
    }
}

pub open spec fn with_state(f: ParsedFlagView, s: FlagState) -> ParsedFlagView {
    ParsedFlagView { state: s, ..f }
}

pub open spec fn with_permission(f: ParsedFlagView, p: FlagPermission) -> ParsedFlagView {
    ParsedFlagView { permission: p, ..f }
}

pub open spec fn with_metadata(f: ParsedFlagView, m: Option<FlagMetadata>) -> ParsedFlagView {
    ParsedFlagView { metadata: m, ..f }
}

pub open spec fn with_trace(f: ParsedFlagView, t: Seq<TracepointView>) -> ParsedFlagView {
    ParsedFlagView { trace: t, ..f }
}

/// The flag with the storage backend that its permission and namespace
/// call for; a flag without metadata is refused.
pub open spec fn spec_assign_storage(
    f: ParsedFlagView,
    beta: Option<Map<Seq<char>, NamespaceSetting>>,
) -> Result<ParsedFlagView, AconfigErrorView> {
    match f.metadata {
        None => Err(AconfigErrorView::MissingMetadata),
        Some(m) => Ok(
            with_metadata(
                f,
                Some(
                    FlagMetadata {
                        purpose: m.purpose,
                        storage: storage_for(
                            f.permission,
                            is_beta_flag(beta, f.namespace, f.container),
                        ),
                    },
                ),
            ),
        ),
    }
}

/// The mainline beta check of the flag aborts: it is in a mainline beta
/// namespace of another container, in a platform container, and exported.
pub open spec fn beta_check_panics(
    beta: Option<Map<Seq<char>, NamespaceSetting>>,
    namespace: Seq<char>,
    container: Seq<char>,
    is_exported: bool,
) -> bool {
    match beta {
        Some(m) => m.contains_key(namespace) && m[namespace].container@ != container
            && is_platform_container(container) && is_exported,
        None => false,
    }
}

/// The mainline beta namespace rules: a flag of such a namespace lives in
/// the namespace's container or in a platform container, and is exported
/// only where the namespace allows it.
pub open spec fn spec_verify_beta(
    f: ParsedFlagView,
    beta: Option<Map<Seq<char>, NamespaceSetting>>,
) -> Result<(), AconfigErrorView> {
    match beta {
        None => Ok(()),
        Some(m) => if !m.contains_key(f.namespace) {
            Ok(())
        } else if !(m[f.namespace].container@ == f.container || is_platform_container(
            f.container,
        )) {
            Err(
                AconfigErrorView::ContainerNotAllowed {
                    container: f.container,
                    namespace: f.namespace,
                },
            )
        } else if f.is_exported && !m[f.namespace].allow_exported {
            Err(
                AconfigErrorView::ExportedNotAllowed {
                    fully_qualified_name: fully_qualified_name(f),
                    namespace: f.namespace,
                },
            )
        } else {
            Ok(())
        },
    }
}

impl MainlineBetaNamespaces {
    fn has_flag(&self, pf: &ParsedFlag) -> (r: bool)
        ensures
            r == self.namespaces@.contains_key(pf.namespace@),
    {
        self.namespaces.contains_key(pf.namespace.as_str())
    }

    fn is_mainline_beta_flag(&self, pf: &ParsedFlag) -> (r: bool)
        ensures
            r == is_beta_flag(Some(self.namespaces@), pf.namespace@, pf.container@),
    {
        match self.namespaces.get(pf.namespace.as_str()) {
            Some(setting) => setting.container == pf.container,
            None => false,
        }
    }

    // For each mainline beta namespace, only the platform containers and the
    // namespace's own container are allowed.
    fn supports_container(&self, pf: &ParsedFlag) -> (r: bool)
        requires
            self.namespaces@.contains_key(pf.namespace@),
        ensures
            r == (self.namespaces@[pf.namespace@].container@ == pf.container@
                || is_platform_container(pf.container@)),
    {
        match self.namespaces.get(pf.namespace.as_str()) {
            Some(setting) => setting.container == pf.container || platform_container(
                pf.container.as_str(),
            ),
            None => false,
        }
    }

    fn supports_exported_mode(&self, pf: &ParsedFlag) -> (r: bool)
        requires
            self.namespaces@.contains_key(pf.namespace@),
            self.namespaces@[pf.namespace@].container@ == pf.container@,
        ensures
            r == self.namespaces@[pf.namespace@].allow_exported,
    {
        match self.namespaces.get(pf.namespace.as_str()) {
            Some(setting) => setting.allow_exported,
            None => false,
        }
    }
}

fn assign_storage_backend(pf: &mut ParsedFlag, beta_namespaces: &Option<MainlineBetaNamespaces>) -> (r:
    Result<(), AconfigError>)
    ensures
        match spec_assign_storage(old(pf)@, beta_view(*beta_namespaces)) {
            Ok(g) => r is Ok && final(pf)@ == g,
            Err(e) => r is Err && r->Err_0@ == e && final(pf)@ == old(pf)@,
        },
{
    let is_mainline_beta = match beta_namespaces {
        Some(namespaces) => namespaces.is_mainline_beta_flag(pf),
        None => false,
    };
    let is_read_only = pf.permission == FlagPermission::ReadOnly;
    let storage = if is_read_only {
        FlagStorageBackend::NoBackend
    } else if is_mainline_beta {
        FlagStorageBackend::DeviceConfig
    } else {
        FlagStorageBackend::Aconfigd
    };
    match pf.metadata {
        Some(m) => {
            pf.metadata = Some(FlagMetadata { purpose: m.purpose, storage });
            Ok(())
        },
        None => Err(AconfigError::MissingMetadata),
    }
}

fn verify_mainline_beta_namespace_flag(
    pf: &ParsedFlag,
    beta_namespaces: &Option<MainlineBetaNamespaces>,
) -> (r: Result<(), AconfigError>)
    requires
        !beta_check_panics(beta_view(*beta_namespaces), pf.namespace@, pf.container@, pf.is_exported),
    ensures
        match spec_verify_beta(pf@, beta_view(*beta_namespaces)) {
            Ok(_) => r is Ok,
            Err(e) => r is Err && r->Err_0@ == e,
        },
{
    if let Some(namespaces) = beta_namespaces {
        if !namespaces.has_flag(pf) {
            return Ok(());
        }
        if !namespaces.supports_container(pf) {
            return Err(
                AconfigError::ContainerNotAllowed {
                    container: pf.container.clone(),
                    namespace: pf.namespace.clone(),
                },
            );
        }
        if pf.is_exported {
            if !namespaces.supports_exported_mode(pf) {
                return Err(
                    AconfigError::ExportedNotAllowed {
                        fully_qualified_name: pf.fully_qualified_name(),
                        namespace: pf.namespace.clone(),
                    },
                );
            }
        }
    }
    Ok(())
}


/// The permission a declared flag starts with: read-only when the flag is
/// fixed read-only or read-only is forced, the default otherwise.
pub open spec fn declared_permission(d: FlagDeclaration, opts: ExtendedPermissionsOptions) -> FlagPermission {
    if d.is_fixed_read_only || opts.force_read_only {
        FlagPermission::ReadOnly
    } else {
        opts.default_permission
    }
}

/// The parsed flag that a declaration creates: disabled, with the declared
/// permission, one trace entry naming the declarations file, and the
/// storage backend that permission and namespace call for.
pub open spec fn new_flag(
    package: Seq<char>,
    container: Seq<char>,
    source: Seq<char>,
    d: FlagDeclaration,
    opts: ExtendedPermissionsOptions,
    beta: Option<Map<Seq<char>, NamespaceSetting>>,
) -> ParsedFlagView {
    let p = declared_permission(d, opts);
    ParsedFlagView {
        package: package,
        name: d.name@,
        namespace: d.namespace@,
        description: d.description@,
        bug: strings_view(d.bug@),
        state: FlagState::Disabled,
        permission: p,
        trace: seq![TracepointView { source: source, state: FlagState::Disabled, permission: p }],
        is_fixed_read_only: d.is_fixed_read_only,
        is_exported: d.is_exported,
        container: container,
        metadata: Some(
            FlagMetadata {
                purpose: d.purpose,
                storage: storage_for(p, is_beta_flag(beta, d.namespace@, container)),
            },
        ),
    }
}

/// Whether some flag of `flags` has the name `name`.
pub open spec fn has_name(flags: Seq<ParsedFlagView>, name: Seq<char>) -> bool {
    exists|i: int| 0 <= i < flags.len() && (#[trigger] flags[i]).name == name
}

/// Declares one flag: the mainline beta rules hold and its name is new.
pub open spec fn declare_flag(
    flags: Seq<ParsedFlagView>,
    package: Seq<char>,
    container: Seq<char>,
    source: Seq<char>,
    d: FlagDeclaration,
    opts: ExtendedPermissionsOptions,
    beta: Option<Map<Seq<char>, NamespaceSetting>>,
) -> Result<Seq<ParsedFlagView>, AconfigErrorView> {
    let f = new_flag(package, container, source, d, opts, beta);
    match spec_verify_beta(f, beta) {
        Err(e) => Err(e),
        Ok(_) => if has_name(flags, f.name) {
            Err(AconfigErrorView::FlagAlreadyDeclared { name: f.name, source: source })
        } else {
            Ok(flags.push(f))
        },
    }
}

/// Declares the flags of one file, in order, stopping at the first error.
pub open spec fn declare_flags(
    flags: Seq<ParsedFlagView>,
    package: Seq<char>,
    container: Seq<char>,
    source: Seq<char>,
    decls: Seq<FlagDeclaration>,
    opts: ExtendedPermissionsOptions,
    beta: Option<Map<Seq<char>, NamespaceSetting>>,
) -> Result<Seq<ParsedFlagView>, AconfigErrorView>
    decreases decls.len(),
{
    if decls.len() == 0 {
        Ok(flags)
    } else {
        match declare_flag(flags, package, container, source, decls[0], opts, beta) {
            Ok(fs) => declare_flags(fs, package, container, source, decls.drop_first(), opts, beta),
            Err(e) => Err(e),
        }
    }
}

/// Declares the flags of one declarations file after checking that the
/// file is for the expected package and container.
pub open spec fn declare_input(
    flags: Seq<ParsedFlagView>,
    package: Seq<char>,
    container: Seq<char>,
    input: Input<FlagDeclarations>,
    opts: ExtendedPermissionsOptions,
    beta: Option<Map<Seq<char>, NamespaceSetting>>,
) -> Result<Seq<ParsedFlagView>, AconfigErrorView> {
    if input.content.package@ != package {
        Err(
            AconfigErrorView::PackageMismatch {
                source: input.source@,
                expected: package,
                got: input.content.package@,
            },
        )
    } else if input.content.container@ != container {
        Err(
            AconfigErrorView::ContainerMismatch {
                source: input.source@,
                expected: container,
                got: input.content.container@,
            },
        )
    } else {
        declare_flags(flags, package, container, input.source@, input.content.flag@, opts, beta)
    }
}

/// Declares the flags of all declarations files, in order.
pub open spec fn declare_inputs(
    flags: Seq<ParsedFlagView>,
    package: Seq<char>,
    container: Seq<char>,
    inputs: Seq<Input<FlagDeclarations>>,
    opts: ExtendedPermissionsOptions,
    beta: Option<Map<Seq<char>, NamespaceSetting>>,
) -> Result<Seq<ParsedFlagView>, AconfigErrorView>
    decreases inputs.len(),
{
    if inputs.len() == 0 {
        Ok(flags)
    } else {
        match declare_input(flags, package, container, inputs[0], opts, beta) {
            Ok(fs) => declare_inputs(fs, package, container, inputs.drop_first(), opts, beta),
            Err(e) => Err(e),
        }
    }
}

/// The index of the first flag with the given package and name.
pub open spec fn find_flag(flags: Seq<ParsedFlagView>, package: Seq<char>, name: Seq<char>) -> Option<
    int,
>
    decreases flags.len(),
{
    if flags.len() == 0 {
        None
    } else if flags[0].package == package && flags[0].name == name {
        Some(0)
    } else {
        match find_flag(flags.drop_first(), package, name) {
            Some(i) => Some(i + 1),
            None => None,
        }
    }
}

/// Applies one value: unknown flags are skipped; a fixed read-only flag
/// takes no permission but read-only; the state and permission are set
/// (read-only when forced), the storage backend follows a permission change,
/// and the trace records the values file.
pub open spec fn apply_value(
    flags: Seq<ParsedFlagView>,
    source: Seq<char>,
    v: FlagValue,
    opts: ExtendedPermissionsOptions,
    beta: Option<Map<Seq<char>, NamespaceSetting>>,
) -> Result<Seq<ParsedFlagView>, AconfigErrorView> {
    match find_flag(flags, v.package@, v.name@) {
        None => Ok(flags),
        Some(i) => {
            let f = flags[i];
            if f.is_fixed_read_only && v.permission != FlagPermission::ReadOnly {
                Err(AconfigErrorView::FixedReadOnly { name: v.name@ })
            } else {
                let p = if opts.force_read_only {
                    FlagPermission::ReadOnly
                } else {
                    v.permission
                };
                let f1 = with_state(f, v.state);
                let f2 = if f.permission != p {
                    spec_assign_storage(with_permission(f1, p), beta)
                } else {
                    Ok(f1)
                };
                match f2 {
                    Err(e) => Err(e),
                    Ok(g) => Ok(
                        flags.update(
                            i,
                            with_trace(
                                g,
                                g.trace.push(
                                    TracepointView { source: source, state: v.state, permission: p },
                                ),
                            ),
                        ),
                    ),
                }
            }
        },
    }
}

/// Applies the values of one file, in order.
pub open spec fn apply_values(
    flags: Seq<ParsedFlagView>,
    source: Seq<char>,
    values: Seq<FlagValue>,
    opts: ExtendedPermissionsOptions,
    beta: Option<Map<Seq<char>, NamespaceSetting>>,
) -> Result<Seq<ParsedFlagView>, AconfigErrorView>
    decreases values.len(),
{
    if values.len() == 0 {
        Ok(flags)
    } else {
        match apply_value(flags, source, values[0], opts, beta) {
            Ok(fs) => apply_values(fs, source, values.drop_first(), opts, beta),
            Err(e) => Err(e),
        }
    }
}

/// Applies the values of all values files, in order.
pub open spec fn apply_inputs(
    flags: Seq<ParsedFlagView>,
    inputs: Seq<Input<FlagValues>>,
    opts: ExtendedPermissionsOptions,
    beta: Option<Map<Seq<char>, NamespaceSetting>>,
) -> Result<Seq<ParsedFlagView>, AconfigErrorView>
    decreases inputs.len(),
{
    if inputs.len() == 0 {
        Ok(flags)
    } else {
        match apply_values(flags, inputs[0].source@, inputs[0].content.flag_value@, opts, beta) {
            Ok(fs) => apply_inputs(fs, inputs.drop_first(), opts, beta),
            Err(e) => Err(e),
        }
    }
}

/// The index of the first read-write flag.
pub open spec fn first_read_write(flags: Seq<ParsedFlagView>) -> Option<int>
    decreases flags.len(),
{
    if flags.len() == 0 {
        None
    } else if flags[0].permission == FlagPermission::ReadWrite {
        Some(0)
    } else {
        match first_read_write(flags.drop_first()) {
            Some(i) => Some(i + 1),
            None => None,
        }
    }
}

/// The parsed flags of a package: every declaration declared, every value
/// applied, and, unless read-write flags are allowed, none left read-write;
/// sorted by fully qualified name.
pub open spec fn spec_parse_flags(
    package: Seq<char>,
    container: Seq<char>,
    declarations: Seq<Input<FlagDeclarations>>,
    values: Seq<Input<FlagValues>>,
    beta: Option<Map<Seq<char>, NamespaceSetting>>,
    opts: ExtendedPermissionsOptions,
) -> Result<Seq<ParsedFlagView>, AconfigErrorView> {
    match declare_inputs(Seq::empty(), package, container, declarations, opts, beta) {
        Err(e) => Err(e),
        Ok(fs) => match apply_inputs(fs, values, opts, beta) {
            Err(e) => Err(e),
            Ok(gs) => if !opts.allow_read_write && first_read_write(gs) is Some {
                Err(
                    AconfigErrorView::ReadWriteNotAllowed {
                        name: gs[first_read_write(gs)->Some_0].name,
                    },
                )
            } else {
                Ok(sorted_flags(gs))
            },
        },
    }
}

/// Declaring these flags, in order, reaches a flag whose mainline beta
/// check aborts before any flag is refused.
pub open spec fn declare_flags_abort(
    flags: Seq<ParsedFlagView>,
    package: Seq<char>,
    container: Seq<char>,
    source: Seq<char>,
    decls: Seq<FlagDeclaration>,
    opts: ExtendedPermissionsOptions,
    beta: Option<Map<Seq<char>, NamespaceSetting>>,
) -> bool
    decreases decls.len(),
{
    if decls.len() == 0 {
        false
    } else if beta_check_panics(beta, decls[0].namespace@, container, decls[0].is_exported) {
        true
    } else {
        match declare_flag(flags, package, container, source, decls[0], opts, beta) {
            Ok(fs) => declare_flags_abort(
                fs,
                package,
                container,
                source,
                decls.drop_first(),
                opts,
                beta,
            ),
            Err(_) => false,
        }
    }
}

/// Declaring one file aborts: it is for the expected package and container
/// and its flags reach an aborting beta check.
pub open spec fn declare_input_aborts(
    flags: Seq<ParsedFlagView>,
    package: Seq<char>,
    container: Seq<char>,
    input: Input<FlagDeclarations>,
    opts: ExtendedPermissionsOptions,
    beta: Option<Map<Seq<char>, NamespaceSetting>>,
) -> bool {
    &&& input.content.package@ == package
    &&& input.content.container@ == container
    &&& declare_flags_abort(
        flags,
        package,
        container,
        input.source@,
        input.content.flag@,
        opts,
        beta,
    )
}

/// Declaring the files, in order, aborts before any of them is refused.
pub open spec fn declare_inputs_abort(
    flags: Seq<ParsedFlagView>,
    package: Seq<char>,
    container: Seq<char>,
    inputs: Seq<Input<FlagDeclarations>>,
    opts: ExtendedPermissionsOptions,
    beta: Option<Map<Seq<char>, NamespaceSetting>>,
) -> bool
    decreases inputs.len(),
{
    if inputs.len() == 0 {
        false
    } else if declare_input_aborts(flags, package, container, inputs[0], opts, beta) {
        true
    } else {
        match declare_input(flags, package, container, inputs[0], opts, beta) {
            Ok(fs) => declare_inputs_abort(fs, package, container, inputs.drop_first(), opts, beta),
            Err(_) => false,
        }
    }
}

/// Whether `parse_flags` would reach the mainline beta namespace check that
/// aborts (an exported flag of a beta namespace of another container,
/// declared in a platform container) before refusing its input: it is not
/// to be called then.
pub fn declarations_abort(
    package: &str,
    container: &str,
    declarations: &Vec<Input<FlagDeclarations>>,
    mainline_beta_namespaces: &Option<MainlineBetaNamespaces>,
    extended_permissions_options: ExtendedPermissionsOptions,
) -> (r: bool)
    ensures
        r == declare_inputs_abort(
            Seq::empty(),
            package@,
            container@,
            declarations@,
            extended_permissions_options,
            beta_view(*mainline_beta_namespaces),
        ),
{
    let ghost spec_beta = beta_view(*mainline_beta_namespaces);
    let opts = extended_permissions_options;
    let mut flags: Vec<ParsedFlag> = Vec::new();
    let ghost all = declarations@;
    assert(all.skip(0) == all);
    assert(flags_view(flags@) == Seq::<ParsedFlagView>::empty());
    let mut k: usize = 0;
    while k < declarations.len()
        invariant
            k <= declarations.len(),
            all == declarations@,
            opts == extended_permissions_options,
            spec_beta == beta_view(*mainline_beta_namespaces),
            declare_inputs_abort(Seq::empty(), package@, container@, all, opts, spec_beta)
                == declare_inputs_abort(
                flags_view(flags@),
                package@,
                container@,
                all.skip(k as int),
                opts,
                spec_beta,
            ),
        decreases declarations.len() - k,
    {
        let ghost rest = all.skip(k as int);
        assert(rest[0] == all[k as int]);
        assert(rest.drop_first() == all.skip(k + 1));
        match declare_file(
            &mut flags,
            package,
            container,
            &declarations[k],
            &opts,
            mainline_beta_namespaces,
        ) {
            DeclareOutcome::Aborts => {
                return true;
            },
            DeclareOutcome::Refused(_) => {
                return false;
            },
            DeclareOutcome::Done => {},
        }
        k = k + 1;
    }
    assert(all.skip(k as int) == Seq::<Input<FlagDeclarations>>::empty());
    false
}

/// A parse result with its flags taken by their views.
pub open spec fn flags_result_view(r: Result<Vec<ParsedFlag>, AconfigError>) -> Result<
    Seq<ParsedFlagView>,
    AconfigErrorView,
> {
    match r {
        Ok(v) => Ok(flags_view(v@)),
        Err(e) => Err(e@),
    }
}


proof fn lemma_find_flag(flags: Seq<ParsedFlagView>, package: Seq<char>, name: Seq<char>, i: int)
    requires
        0 <= i <= flags.len(),
        forall|j: int|
            0 <= j < i ==> !((#[trigger] flags[j]).package == package && flags[j].name == name),
    ensures
        i < flags.len() && flags[i].package == package && flags[i].name == name ==> find_flag(
            flags,
            package,
            name,
        ) == Some(i),
        i == flags.len() ==> find_flag(flags, package, name) is None,
    decreases i,
{
    if i > 0 {
        assert forall|j: int| 0 <= j < i - 1 implies !((#[trigger] flags.drop_first()[j]).package
            == package && flags.drop_first()[j].name == name) by {
            assert(flags.drop_first()[j] == flags[j + 1]);
        }
        lemma_find_flag(flags.drop_first(), package, name, i - 1);
    }
}

proof fn lemma_first_read_write(flags: Seq<ParsedFlagView>, i: int)
    requires
        0 <= i <= flags.len(),
        forall|j: int| 0 <= j < i ==> (#[trigger] flags[j]).permission != FlagPermission::ReadWrite,
    ensures
        i < flags.len() && flags[i].permission == FlagPermission::ReadWrite ==> first_read_write(
            flags,
        ) == Some(i),
        i == flags.len() ==> first_read_write(flags) is None,
    decreases i,
{
    if i > 0 {
        assert forall|j: int| 0 <= j < i - 1 implies (#[trigger] flags.drop_first()[j]).permission
            != FlagPermission::ReadWrite by {
            assert(flags.drop_first()[j] == flags[j + 1]);
        }
        lemma_first_read_write(flags.drop_first(), i - 1);
    }
}

fn create_parsed_flag(
    package: &str,
    container: &str,
    source: &String,
    d: &FlagDeclaration,
    opts: &ExtendedPermissionsOptions,
    beta: &Option<MainlineBetaNamespaces>,
) -> (r: ParsedFlag)
    ensures
        r@ == new_flag(package@, container@, source@, *d, *opts, beta_view(*beta)),
{
    let permission = if d.is_fixed_read_only || opts.force_read_only {
        FlagPermission::ReadOnly
    } else {
        opts.default_permission
    };
    let mut trace: Vec<Tracepoint> = Vec::new();
    trace.push(Tracepoint { source: source.clone(), state: FlagState::Disabled, permission });
    let mut pf = ParsedFlag {
        package: String::from_str(package),
        name: d.name.clone(),
        namespace: d.namespace.clone(),
        description: d.description.clone(),
        bug: clone_strings(&d.bug),
        state: FlagState::Disabled,
        permission,
        trace,
        is_fixed_read_only: d.is_fixed_read_only,
        is_exported: d.is_exported,
        container: String::from_str(container),
        metadata: Some(FlagMetadata { purpose: d.purpose, storage: FlagStorageBackend::Unspecified }),
    };
    let _ = assign_storage_backend(&mut pf, beta);
    assert(traces_view(pf.trace@) == seq![
        TracepointView { source: source@, state: FlagState::Disabled, permission },
    ]);
    pf
}

/// Whether some flag of `flags` is named `name`.
fn flag_named(flags: &Vec<ParsedFlag>, name: &String) -> (r: bool)
    ensures
        r == has_name(flags_view(flags@), name@),
{
    let mut j: usize = 0;
    while j < flags.len()
        invariant
            j <= flags.len(),
            forall|i: int| 0 <= i < j ==> (#[trigger] flags@[i])@.name != name@,
        decreases flags.len() - j,
    {
        if flags[j].name == *name {
            assert(flags_view(flags@)[j as int].name == name@);
            return true;
        }
        j = j + 1;
    }
    assert forall|i: int| 0 <= i < flags_view(flags@).len() implies (
    #[trigger] flags_view(flags@)[i]).name != name@ by {
        assert(flags_view(flags@)[i] == flags@[i]@);
    }
    false
}

/// How declaring one file ended.
enum DeclareOutcome {
    Done,
    Refused(AconfigError),
    /// The mainline beta check of a flag aborts.
    Aborts,
}

/// Whether the mainline beta check of `pf` aborts.
fn beta_check_aborts_for(pf: &ParsedFlag, beta: &Option<MainlineBetaNamespaces>) -> (r: bool)
    ensures
        r == beta_check_panics(beta_view(*beta), pf.namespace@, pf.container@, pf.is_exported),
{
    match beta {
        None => false,
        Some(namespaces) => match namespaces.namespaces.get(pf.namespace.as_str()) {
            Some(setting) => !str_eq(setting.container.as_str(), pf.container.as_str())
                && platform_container(pf.container.as_str()) && pf.is_exported,
            None => false,
        },
    }
}

/// Declares the flags of one declarations file into `flags`, stopping
/// where the mainline beta check of a flag aborts.
fn declare_file(
    flags: &mut Vec<ParsedFlag>,
    package: &str,
    container: &str,
    input: &Input<FlagDeclarations>,
    opts: &ExtendedPermissionsOptions,
    beta: &Option<MainlineBetaNamespaces>,
) -> (r: DeclareOutcome)
    ensures
        declare_input_aborts(
            flags_view(old(flags)@),
            package@,
            container@,
            *input,
            *opts,
            beta_view(*beta),
        ) ==> r is Aborts,
        !declare_input_aborts(
            flags_view(old(flags)@),
            package@,
            container@,
            *input,
            *opts,
            beta_view(*beta),
        ) ==> match declare_input(
            flags_view(old(flags)@),
            package@,
            container@,
            *input,
            *opts,
            beta_view(*beta),
        ) {
            Ok(fs) => r is Done && flags_view(final(flags)@) == fs,
            Err(e) => r matches DeclareOutcome::Refused(x) && x@ == e,
        },
{
    if !str_eq(input.content.package.as_str(), package) {
        return DeclareOutcome::Refused(
            AconfigError::PackageMismatch {
                source: input.source.clone(),
                expected: String::from_str(package),
                got: input.content.package.clone(),
            },
        );
    }
    if !str_eq(input.content.container.as_str(), container) {
        return DeclareOutcome::Refused(
            AconfigError::ContainerMismatch {
                source: input.source.clone(),
                expected: String::from_str(container),
                got: input.content.container.clone(),
            },
        );
    }
    let ghost decls = input.content.flag@;
    let ghost spec_beta = beta_view(*beta);
    let ghost goal = declare_flags(
        flags_view(flags@),
        package@,
        container@,
        input.source@,
        decls,
        *opts,
        spec_beta,
    );
    let ghost aborts = declare_flags_abort(
        flags_view(flags@),
        package@,
        container@,
        input.source@,
        decls,
        *opts,
        spec_beta,
    );
    let n = input.content.flag.len();
    let mut k: usize = 0;
    assert(decls.skip(0) == decls);
    while k < n
        invariant
            n == decls.len(),
            decls == input.content.flag@,
            spec_beta == beta_view(*beta),
            k <= n,
            input.content.package@ == package@,
            input.content.container@ == container@,
            declare_input(
                flags_view(old(flags)@),
                package@,
                container@,
                *input,
                *opts,
                spec_beta,
            ) == goal,
            declare_input_aborts(
                flags_view(old(flags)@),
                package@,
                container@,
                *input,
                *opts,
                spec_beta,
            ) == aborts,
            goal == declare_flags(
                flags_view(flags@),
                package@,
                container@,
                input.source@,
                decls.skip(k as int),
                *opts,
                spec_beta,
            ),
            aborts == declare_flags_abort(
                flags_view(flags@),
                package@,
                container@,
                input.source@,
                decls.skip(k as int),
                *opts,
                spec_beta,
            ),
        decreases n - k,
    {
        let ghost rest = decls.skip(k as int);
        assert(rest[0] == decls[k as int]);
        assert(rest.drop_first() == decls.skip(k + 1));
        let d = &input.content.flag[k];
        let pf = create_parsed_flag(package, container, &input.source, d, opts, beta);
        if beta_check_aborts_for(&pf, beta) {
            return DeclareOutcome::Aborts;
        }
        match verify_mainline_beta_namespace_flag(&pf, beta) {
            Err(e) => {
                assert(declare_flag(
                    flags_view(flags@),
                    package@,
                    container@,
                    input.source@,
                    decls[k as int],
                    *opts,
                    spec_beta,
                ) == Err::<Seq<ParsedFlagView>, AconfigErrorView>(e@));
                return DeclareOutcome::Refused(e);
            },
            Ok(()) => {},
        }
        if flag_named(flags, &pf.name) {
            return DeclareOutcome::Refused(
                AconfigError::FlagAlreadyDeclared {
                    name: pf.name.clone(),
                    source: input.source.clone(),
                },
            );
        }
        let ghost before = flags@;
        flags.push(pf);
        assert(flags_view(flags@) == flags_view(before).push(pf@));
        k = k + 1;
    }
    DeclareOutcome::Done
}


/// The index of the first flag with the given package and name.
fn find_flag_index(flags: &Vec<ParsedFlag>, package: &String, name: &String) -> (r: Option<usize>)
    ensures
        match r {
            Some(i) => i < flags.len() && find_flag(flags_view(flags@), package@, name@) == Some(
                i as int,
            ),
            None => find_flag(flags_view(flags@), package@, name@) is None,
        },
{
    let ghost fv = flags_view(flags@);
    let mut i: usize = 0;
    while i < flags.len()
        invariant
            i <= flags.len(),
            fv == flags_view(flags@),
            forall|j: int|
                0 <= j < i ==> !((#[trigger] fv[j]).package == package@ && fv[j].name == name@),
        decreases flags.len() - i,
    {
        if flags[i].package == *package && flags[i].name == *name {
            proof {
                lemma_find_flag(fv, package@, name@, i as int);
            }
            return Some(i);
        }
        i = i + 1;
    }
    proof {
        lemma_find_flag(fv, package@, name@, i as int);
    }
    None
}

/// Applies the values of one values file to `flags`.
fn apply_file(
    flags: &mut Vec<ParsedFlag>,
    input: &Input<FlagValues>,
    opts: &ExtendedPermissionsOptions,
    beta: &Option<MainlineBetaNamespaces>,
) -> (r: Result<(), AconfigError>)
    ensures
        match apply_values(
            flags_view(old(flags)@),
            input.source@,
            input.content.flag_value@,
            *opts,
            beta_view(*beta),
        ) {
            Ok(fs) => r is Ok && flags_view(final(flags)@) == fs,
            Err(e) => r is Err && r->Err_0@ == e,
        },
{
    let ghost vals = input.content.flag_value@;
    let ghost spec_beta = beta_view(*beta);
    let ghost goal = apply_values(flags_view(flags@), input.source@, vals, *opts, spec_beta);
    let n = input.content.flag_value.len();
    let mut k: usize = 0;
    assert(vals.skip(0) == vals);
    while k < n
        invariant
            n == vals.len(),
            vals == input.content.flag_value@,
            spec_beta == beta_view(*beta),
            k <= n,
            apply_values(flags_view(old(flags)@), input.source@, vals, *opts, spec_beta) == goal,
            goal == apply_values(
                flags_view(flags@),
                input.source@,
                vals.skip(k as int),
                *opts,
                spec_beta,
            ),
        decreases n - k,
    {
        let ghost rest = vals.skip(k as int);
        assert(rest[0] == vals[k as int]);
        assert(rest.drop_first() == vals.skip(k + 1));
        let ghost fv = flags_view(flags@);
        let v = &input.content.flag_value[k];
        match find_flag_index(flags, &v.package, &v.name) {
            None => {},
            Some(i) => {
                if flags[i].is_fixed_read_only && v.permission != FlagPermission::ReadOnly {
                    return Err(AconfigError::FixedReadOnly { name: v.name.clone() });
                }
                let permission = if opts.force_read_only {
                    FlagPermission::ReadOnly
                } else {
                    v.permission
                };
                let mut pf = flags.remove(i);
                assert(pf@ == fv[i as int]);
                pf.state = v.state;
                if pf.permission != permission {
                    pf.permission = permission;
                    match assign_storage_backend(&mut pf, beta) {
                        Err(e) => {
                            return Err(e);
                        },
                        Ok(()) => {},
                    }
                }
                let ghost t0 = pf.trace@;
                pf.trace.push(
                    Tracepoint { source: input.source.clone(), state: v.state, permission },
                );
                assert(traces_view(pf.trace@) == traces_view(t0).push(
                    TracepointView { source: input.source@, state: v.state, permission },
                ));
                let ghost removed = flags@;
                flags.insert(i, pf);
                assert(flags@ == removed.insert(i as int, pf));
                assert(flags_view(flags@) == fv.update(i as int, pf@)) by {
                    assert forall|j: int| 0 <= j < fv.len() implies flags_view(flags@)[j]
                        == fv.update(i as int, pf@)[j] by {
                        if j < i {
                            assert(flags@[j] == removed[j]);
                        } else if j > i {
                            assert(flags@[j] == removed[j - 1]);
                        }
                    }
                }
            },
        }
        k = k + 1;
    }
    Ok(())
}

/// Builds the parsed flags of `package` in `container` from declarations
/// and values files; the flags come out sorted by name.
#[verifier::loop_isolation(false)]
pub fn parse_flags(
    package: &str,
    container: &str,
    declarations: Vec<Input<FlagDeclarations>>,
    values: Vec<Input<FlagValues>>,
    mainline_beta_namespaces: Option<MainlineBetaNamespaces>,
    extended_permissions_options: ExtendedPermissionsOptions,
) -> (r: Result<Vec<ParsedFlag>, AconfigError>)
    requires
        !declare_inputs_abort(
            Seq::empty(),
            package@,
            container@,
            declarations@,
            extended_permissions_options,
            beta_view(mainline_beta_namespaces),
        ),
    ensures
        flags_result_view(r) == spec_parse_flags(
            package@,
            container@,
            declarations@,
            values@,
            beta_view(mainline_beta_namespaces),
            extended_permissions_options,
        ),
{
    let ghost spec_beta = beta_view(mainline_beta_namespaces);
    let opts = extended_permissions_options;
    let mut parsed_flags: Vec<ParsedFlag> = Vec::new();
    let ghost goal = declare_inputs(
        Seq::empty(),
        package@,
        container@,
        declarations@,
        opts,
        spec_beta,
    );
    assert(flags_view(parsed_flags@) == Seq::<ParsedFlagView>::empty());
    assert(declarations@.skip(0) == declarations@);
    let mut k: usize = 0;
    while k < declarations.len()
        invariant
            k <= declarations.len(),
            spec_beta == beta_view(mainline_beta_namespaces),
            !declare_inputs_abort(
                flags_view(parsed_flags@),
                package@,
                container@,
                declarations@.skip(k as int),
                opts,
                spec_beta,
            ),
            goal == declare_inputs(
                flags_view(parsed_flags@),
                package@,
                container@,
                declarations@.skip(k as int),
                opts,
                spec_beta,
            ),
        decreases declarations.len() - k,
    {
        let ghost rest = declarations@.skip(k as int);
        assert(rest[0] == declarations@[k as int]);
        assert(rest.drop_first() == declarations@.skip(k + 1));
        let ghost before = flags_view(parsed_flags@);
        match declare_file(
            &mut parsed_flags,
            package,
            container,
            &declarations[k],
            &opts,
            &mainline_beta_namespaces,
        ) {
            DeclareOutcome::Refused(e) => {
                return Err(e);
            },
            DeclareOutcome::Aborts => {
                assert(false);
                return Err(AconfigError::MissingMetadata);
            },
            DeclareOutcome::Done => {},
        }
        k = k + 1;
    }
    let ghost declared = flags_view(parsed_flags@);
    let ghost goal2 = apply_inputs(declared, values@, opts, spec_beta);
    assert(values@.skip(0) == values@);
    let mut k: usize = 0;
    while k < values.len()
        invariant
            k <= values.len(),
            spec_beta == beta_view(mainline_beta_namespaces),
            goal2 == apply_inputs(
                flags_view(parsed_flags@),
                values@.skip(k as int),
                opts,
                spec_beta,
            ),
        decreases values.len() - k,
    {
        let ghost rest = values@.skip(k as int);
        assert(rest[0] == values@[k as int]);
        assert(rest.drop_first() == values@.skip(k + 1));
        match apply_file(&mut parsed_flags, &values[k], &opts, &mainline_beta_namespaces) {
            Err(e) => {
                return Err(e);
            },
            Ok(()) => {},
        }
        k = k + 1;
    }
    if !opts.allow_read_write {
        let ghost fv = flags_view(parsed_flags@);
        let mut i: usize = 0;
        while i < parsed_flags.len()
            invariant
                i <= parsed_flags.len(),
                fv == flags_view(parsed_flags@),
                forall|j: int|
                    0 <= j < i ==> (#[trigger] fv[j]).permission != FlagPermission::ReadWrite,
            decreases parsed_flags.len() - i,
        {
            if parsed_flags[i].permission == FlagPermission::ReadWrite {
                proof {
                    lemma_first_read_write(fv, i as int);
                }
                return Err(AconfigError::ReadWriteNotAllowed { name: parsed_flags[i].name.clone() });
            }
            i = i + 1;
        }
        proof {
            lemma_first_read_write(fv, i as int);
        }
    }
    sort_parsed_flags(&mut parsed_flags);
    Ok(parsed_flags)
}


/// What every parsed flag of a package satisfies: it belongs to the package
/// and container, its last trace entry holds its current state and
/// permission, its storage backend is the one its permission and namespace
/// call for, and it is read-only when fixed read-only or when read-only is
/// forced.
pub open spec fn flag_invariant(
    f: ParsedFlagView,
    package: Seq<char>,
    container: Seq<char>,
    beta: Option<Map<Seq<char>, NamespaceSetting>>,
    opts: ExtendedPermissionsOptions,
) -> bool {
    &&& f.package == package
    &&& f.container == container
    &&& f.trace.len() > 0
    &&& f.trace.last().state == f.state
    &&& f.trace.last().permission == f.permission
    &&& f.metadata is Some
    &&& f.metadata->Some_0.storage == storage_for(
        f.permission,
        is_beta_flag(beta, f.namespace, f.container),
    )
    &&& f.is_fixed_read_only ==> f.permission == FlagPermission::ReadOnly
    &&& opts.force_read_only ==> f.permission == FlagPermission::ReadOnly
}

/// No two flags share a name.
pub open spec fn names_unique(flags: Seq<ParsedFlagView>) -> bool {
    forall|i: int, j: int|
        0 <= i < flags.len() && 0 <= j < flags.len() && i != j ==> (#[trigger] flags[i]).name
            != (#[trigger] flags[j]).name
}

pub open spec fn all_flags_ok(
    flags: Seq<ParsedFlagView>,
    package: Seq<char>,
    container: Seq<char>,
    beta: Option<Map<Seq<char>, NamespaceSetting>>,
    opts: ExtendedPermissionsOptions,
) -> bool {
    &&& names_unique(flags)
    &&& forall|i: int|
        0 <= i < flags.len() ==> flag_invariant(#[trigger] flags[i], package, container, beta, opts)
}

proof fn lemma_declare_flags_ok(
    flags: Seq<ParsedFlagView>,
    package: Seq<char>,
    container: Seq<char>,
    source: Seq<char>,
    decls: Seq<FlagDeclaration>,
    opts: ExtendedPermissionsOptions,
    beta: Option<Map<Seq<char>, NamespaceSetting>>,
)
    requires
        all_flags_ok(flags, package, container, beta, opts),
    ensures
        declare_flags(flags, package, container, source, decls, opts, beta) matches Ok(fs)
            ==> all_flags_ok(fs, package, container, beta, opts),
    decreases decls.len(),
{
    if decls.len() > 0 {
        let f = new_flag(package, container, source, decls[0], opts, beta);
        if let Ok(fs) = declare_flag(flags, package, container, source, decls[0], opts, beta) {
            assert(fs == flags.push(f));
            assert forall|i: int, j: int|
                0 <= i < fs.len() && 0 <= j < fs.len() && i != j implies (#[trigger] fs[i]).name
                != (#[trigger] fs[j]).name by {
                if i == flags.len() {
                    assert(fs[j] == flags[j]);
                } else if j == flags.len() {
                    assert(fs[i] == flags[i]);
                }
            }
            assert forall|i: int| 0 <= i < fs.len() implies flag_invariant(
                #[trigger] fs[i],
                package,
                container,
                beta,
                opts,
            ) by {
                if i < flags.len() {
                    assert(fs[i] == flags[i]);
                }
            }
            lemma_declare_flags_ok(fs, package, container, source, decls.drop_first(), opts, beta);
        }
    }
}

proof fn lemma_declare_inputs_ok(
    flags: Seq<ParsedFlagView>,
    package: Seq<char>,
    container: Seq<char>,
    inputs: Seq<Input<FlagDeclarations>>,
    opts: ExtendedPermissionsOptions,
    beta: Option<Map<Seq<char>, NamespaceSetting>>,
)
    requires
        all_flags_ok(flags, package, container, beta, opts),
    ensures
        declare_inputs(flags, package, container, inputs, opts, beta) matches Ok(fs)
            ==> all_flags_ok(fs, package, container, beta, opts),
    decreases inputs.len(),
{
    if inputs.len() > 0 {
        let inp = inputs[0];
        if inp.content.package@ == package && inp.content.container@ == container {
            lemma_declare_flags_ok(
                flags,
                package,
                container,
                inp.source@,
                inp.content.flag@,
                opts,
                beta,
            );
        }
        if let Ok(fs) = declare_input(flags, package, container, inp, opts, beta) {
            lemma_declare_inputs_ok(fs, package, container, inputs.drop_first(), opts, beta);
        }
    }
}

proof fn lemma_find_flag_found(flags: Seq<ParsedFlagView>, package: Seq<char>, name: Seq<char>)
    ensures
        find_flag(flags, package, name) matches Some(i) ==> 0 <= i < flags.len() && flags[i].package
            == package && flags[i].name == name,
    decreases flags.len(),
{
    if flags.len() > 0 {
        lemma_find_flag_found(flags.drop_first(), package, name);
    }
}

proof fn lemma_apply_values_ok(
    flags: Seq<ParsedFlagView>,
    package: Seq<char>,
    container: Seq<char>,
    source: Seq<char>,
    values: Seq<FlagValue>,
    opts: ExtendedPermissionsOptions,
    beta: Option<Map<Seq<char>, NamespaceSetting>>,
)
    requires
        all_flags_ok(flags, package, container, beta, opts),
    ensures
        apply_values(flags, source, values, opts, beta) matches Ok(fs) ==> all_flags_ok(
            fs,
            package,
            container,
            beta,
            opts,
        ),
    decreases values.len(),
{
    if values.len() > 0 {
        let v = values[0];
        lemma_find_flag_found(flags, v.package@, v.name@);
        if let Ok(fs) = apply_value(flags, source, v, opts, beta) {
            if let Some(k) = find_flag(flags, v.package@, v.name@) {
                assert(flag_invariant(flags[k], package, container, beta, opts));
                assert(fs.len() == flags.len());
                assert forall|i: int, j: int|
                    0 <= i < fs.len() && 0 <= j < fs.len() && i != j implies (
                    #[trigger] fs[i]).name != (#[trigger] fs[j]).name by {
                    assert(fs[i].name == flags[i].name);
                    assert(fs[j].name == flags[j].name);
                }
                assert forall|i: int| 0 <= i < fs.len() implies flag_invariant(
                    #[trigger] fs[i],
                    package,
                    container,
                    beta,
                    opts,
                ) by {
                    if i != k {
                        assert(fs[i] == flags[i]);
                    }
                }
            }
            lemma_apply_values_ok(fs, package, container, source, values.drop_first(), opts, beta);
        }
    }
}

proof fn lemma_apply_inputs_ok(
    flags: Seq<ParsedFlagView>,
    package: Seq<char>,
    container: Seq<char>,
    inputs: Seq<Input<FlagValues>>,
    opts: ExtendedPermissionsOptions,
    beta: Option<Map<Seq<char>, NamespaceSetting>>,
)
    requires
        all_flags_ok(flags, package, container, beta, opts),
    ensures
        apply_inputs(flags, inputs, opts, beta) matches Ok(fs) ==> all_flags_ok(
            fs,
            package,
            container,
            beta,
            opts,
        ),
    decreases inputs.len(),
{
    if inputs.len() > 0 {
        lemma_apply_values_ok(
            flags,
            package,
            container,
            inputs[0].source@,
            inputs[0].content.flag_value@,
            opts,
            beta,
        );
        if let Ok(fs) = apply_values(
            flags,
            inputs[0].source@,
            inputs[0].content.flag_value@,
            opts,
            beta,
        ) {
            lemma_apply_inputs_ok(fs, package, container, inputs.drop_first(), opts, beta);
        }
    }
}

proof fn lemma_insert_flag_names_unique(t: Seq<ParsedFlagView>, f: ParsedFlagView)
    requires
        names_unique(t),
        forall|k: int| 0 <= k < t.len() ==> (#[trigger] t[k]).name != f.name,
    ensures
        names_unique(insert_flag(t, f)),
    decreases t.len(),
{
    broadcast use vstd::seq_lib::group_to_multiset_ensures;
    if t.len() > 0 && !crate::sort::flag_le(t.last(), f) {
        let d = t.drop_last();
        let l = t.last();
        lemma_insert_flag_names_unique(d, f);
        lemma_sorted_flags(d);
        let u = insert_flag(d, f);
        crate::sort::lemma_insert_flag_elements(d, f);
        assert forall|k: int| 0 <= k < u.len() implies (#[trigger] u[k]).name != l.name by {
            assert(u.contains(u[k]));
            if u[k] != f {
                let m = choose|m: int| 0 <= m < d.len() && d[m] == u[k];
                assert(t[m] == d[m]);
            }
        }
        let w = u.push(l);
        assert forall|i: int, j: int|
            0 <= i < w.len() && 0 <= j < w.len() && i != j implies (#[trigger] w[i]).name
            != (#[trigger] w[j]).name by {
            if i < u.len() && j < u.len() {
                assert(w[i] == u[i] && w[j] == u[j]);
            }
        }
    }
}

/// Sorting keeps names unique.
proof fn lemma_sorted_flags_names_unique(s: Seq<ParsedFlagView>)
    requires
        names_unique(s),
    ensures
        names_unique(sorted_flags(s)),
    decreases s.len(),
{
    broadcast use vstd::seq_lib::group_to_multiset_ensures;
    if s.len() > 0 {
        let d = s.drop_last();
        let l = s.last();
        lemma_sorted_flags_names_unique(d);
        lemma_sorted_flags(d);
        let v = sorted_flags(d);
        assert forall|k: int| 0 <= k < v.len() implies (#[trigger] v[k]).name != l.name by {
            assert(v.contains(v[k]));
            assert(v.to_multiset().count(v[k]) > 0);
            assert(d.to_multiset().count(v[k]) > 0);
            assert(d.contains(v[k]));
            let m = choose|m: int| 0 <= m < d.len() && d[m] == v[k];
            assert(s[m] == d[m]);
        }
        lemma_insert_flag_names_unique(v, l);
    }
}

/// Sorting keeps the flags: a flag is in `sorted_flags(s)` exactly when it
/// is in `s`.
proof fn lemma_sorted_flags_contains(s: Seq<ParsedFlagView>, x: ParsedFlagView)
    ensures
        sorted_flags(s).contains(x) <==> s.contains(x),
{
    broadcast use vstd::seq_lib::group_to_multiset_ensures;
    lemma_sorted_flags(s);
    assert(sorted_flags(s).contains(x) <==> sorted_flags(s).to_multiset().count(x) > 0);
    assert(s.contains(x) <==> s.to_multiset().count(x) > 0);
}

/// Parsed flags are consistent: they are sorted by fully qualified name and
/// their names are unique; every flag belongs to the
/// requested package and container, its last trace entry records its
/// current state and permission, its storage backend matches its permission
/// and namespace, and it is read-only when fixed read-only or when read-only
/// is forced; and when read-write flags are not allowed, every flag is
/// read-only.
pub proof fn lemma_parsed_flags_consistent(
    package: Seq<char>,
    container: Seq<char>,
    declarations: Seq<Input<FlagDeclarations>>,
    values: Seq<Input<FlagValues>>,
    beta: Option<Map<Seq<char>, NamespaceSetting>>,
    opts: ExtendedPermissionsOptions,
)
    ensures
        spec_parse_flags(package, container, declarations, values, beta, opts) matches Ok(fs) ==> {
            &&& flags_sorted(fs)
            &&& names_unique(fs)
            &&& forall|i: int|
                0 <= i < fs.len() ==> flag_invariant(#[trigger] fs[i], package, container, beta, opts)
            &&& !opts.allow_read_write ==> forall|i: int|
                0 <= i < fs.len() ==> (#[trigger] fs[i]).permission == FlagPermission::ReadOnly
        },
{
    let empty = Seq::<ParsedFlagView>::empty();
    lemma_declare_inputs_ok(empty, package, container, declarations, opts, beta);
    if let Ok(fs) = declare_inputs(empty, package, container, declarations, opts, beta) {
        lemma_apply_inputs_ok(fs, package, container, values, opts, beta);
        if let Ok(gs) = apply_inputs(fs, values, opts, beta) {
            if !opts.allow_read_write && first_read_write(gs) is None {
                assert forall|i: int| 0 <= i < gs.len() implies (#[trigger] gs[i]).permission
                    == FlagPermission::ReadOnly by {
                    lemma_first_read_write_none(gs, i);
                }
            }
            let hs = sorted_flags(gs);
            lemma_sorted_flags(gs);
            lemma_sorted_flags_names_unique(gs);
            assert forall|i: int| 0 <= i < hs.len() implies exists|m: int|
                0 <= m < gs.len() && gs[m] == #[trigger] hs[i] by {
                lemma_sorted_flags_contains(gs, hs[i]);
                assert(hs.contains(hs[i]));
            }
        }
    }
}

proof fn lemma_first_read_write_none(flags: Seq<ParsedFlagView>, i: int)
    requires
        first_read_write(flags) is None,
        0 <= i < flags.len(),
    ensures
        flags[i].permission == FlagPermission::ReadOnly,
    decreases flags.len(),
{
    if i > 0 {
        assert(flags.drop_first()[i - 1] == flags[i]);
        lemma_first_read_write_none(flags.drop_first(), i - 1);
    }
}

/// The names of the flags, in order.
pub open spec fn flag_names(flags: Seq<ParsedFlagView>) -> Seq<Seq<char>> {
    flags.map_values(|f: ParsedFlagView| f.name)
}

/// The names declared by the declarations files, file by file and in order.
pub open spec fn declared_names(inputs: Seq<Input<FlagDeclarations>>) -> Seq<Seq<char>>
    decreases inputs.len(),
{
    if inputs.len() == 0 {
        Seq::empty()
    } else {
        inputs[0].content.flag@.map_values(|d: FlagDeclaration| d.name@) + declared_names(
            inputs.drop_first(),
        )
    }
}

proof fn lemma_declare_flags_names(
    flags: Seq<ParsedFlagView>,
    package: Seq<char>,
    container: Seq<char>,
    source: Seq<char>,
    decls: Seq<FlagDeclaration>,
    opts: ExtendedPermissionsOptions,
    beta: Option<Map<Seq<char>, NamespaceSetting>>,
)
    ensures
        declare_flags(flags, package, container, source, decls, opts, beta) matches Ok(fs)
            ==> flag_names(fs) == flag_names(flags) + decls.map_values(
            |d: FlagDeclaration| d.name@,
        ),
    decreases decls.len(),
{
    let dn = decls.map_values(|d: FlagDeclaration| d.name@);
    if decls.len() == 0 {
        assert(flag_names(flags) + dn =~= flag_names(flags));
    } else if let Ok(fs) = declare_flag(flags, package, container, source, decls[0], opts, beta) {
        lemma_declare_flags_names(fs, package, container, source, decls.drop_first(), opts, beta);
        let f = new_flag(package, container, source, decls[0], opts, beta);
        assert(fs == flags.push(f));
        assert(flag_names(fs) =~= flag_names(flags).push(decls[0].name@));
        assert(decls.drop_first().map_values(|d: FlagDeclaration| d.name@) =~= dn.drop_first());
        assert(flag_names(flags).push(decls[0].name@) + dn.drop_first() =~= flag_names(flags)
            + dn);
    }
}

proof fn lemma_declare_inputs_names(
    flags: Seq<ParsedFlagView>,
    package: Seq<char>,
    container: Seq<char>,
    inputs: Seq<Input<FlagDeclarations>>,
    opts: ExtendedPermissionsOptions,
    beta: Option<Map<Seq<char>, NamespaceSetting>>,
)
    ensures
        declare_inputs(flags, package, container, inputs, opts, beta) matches Ok(fs) ==> flag_names(
            fs,
        ) == flag_names(flags) + declared_names(inputs),
    decreases inputs.len(),
{
    if inputs.len() == 0 {
        assert(flag_names(flags) + declared_names(inputs) =~= flag_names(flags));
    } else if let Ok(fs) = declare_input(flags, package, container, inputs[0], opts, beta) {
        lemma_declare_flags_names(
            flags,
            package,
            container,
            inputs[0].source@,
            inputs[0].content.flag@,
            opts,
            beta,
        );
        lemma_declare_inputs_names(fs, package, container, inputs.drop_first(), opts, beta);
        assert(flag_names(flags) + inputs[0].content.flag@.map_values(
            |d: FlagDeclaration| d.name@,
        ) + declared_names(inputs.drop_first()) =~= flag_names(flags) + declared_names(inputs));
    }
}

proof fn lemma_apply_values_names(
    flags: Seq<ParsedFlagView>,
    source: Seq<char>,
    values: Seq<FlagValue>,
    opts: ExtendedPermissionsOptions,
    beta: Option<Map<Seq<char>, NamespaceSetting>>,
)
    ensures
        apply_values(flags, source, values, opts, beta) matches Ok(fs) ==> flag_names(fs)
            == flag_names(flags),
    decreases values.len(),
{
    if values.len() > 0 {
        if let Ok(fs) = apply_value(flags, source, values[0], opts, beta) {
            if let Some(i) = find_flag(flags, values[0].package@, values[0].name@) {
                lemma_find_flag_found(flags, values[0].package@, values[0].name@);
                assert(flag_names(fs) =~= flag_names(flags));
            }
            lemma_apply_values_names(fs, source, values.drop_first(), opts, beta);
        }
    }
}

proof fn lemma_apply_inputs_names(
    flags: Seq<ParsedFlagView>,
    inputs: Seq<Input<FlagValues>>,
    opts: ExtendedPermissionsOptions,
    beta: Option<Map<Seq<char>, NamespaceSetting>>,
)
    ensures
        apply_inputs(flags, inputs, opts, beta) matches Ok(fs) ==> flag_names(fs) == flag_names(
            flags,
        ),
    decreases inputs.len(),
{
    if inputs.len() > 0 {
        lemma_apply_values_names(
            flags,
            inputs[0].source@,
            inputs[0].content.flag_value@,
            opts,
            beta,
        );
        if let Ok(fs) = apply_values(
            flags,
            inputs[0].source@,
            inputs[0].content.flag_value@,
            opts,
            beta,
        ) {
            lemma_apply_inputs_names(fs, inputs.drop_first(), opts, beta);
        }
    }
}

/// Every declared flag comes out once: the names of the parsed flags are
/// the declared names, each once, and flags are never added by values files.
pub proof fn lemma_parsed_flags_follow_declarations(
    package: Seq<char>,
    container: Seq<char>,
    declarations: Seq<Input<FlagDeclarations>>,
    values: Seq<Input<FlagValues>>,
    beta: Option<Map<Seq<char>, NamespaceSetting>>,
    opts: ExtendedPermissionsOptions,
)
    ensures
        spec_parse_flags(package, container, declarations, values, beta, opts) matches Ok(fs) ==> {
            &&& fs.len() == declared_names(declarations).len()
            &&& forall|n: Seq<char>|
                #[trigger] flag_names(fs).contains(n) <==> declared_names(declarations).contains(n)
        },
{
    let empty = Seq::<ParsedFlagView>::empty();
    lemma_declare_inputs_names(empty, package, container, declarations, opts, beta);
    if let Ok(fs) = declare_inputs(empty, package, container, declarations, opts, beta) {
        assert(flag_names(empty) + declared_names(declarations) =~= declared_names(declarations));
        lemma_apply_inputs_names(fs, values, opts, beta);
        if let Ok(gs) = apply_inputs(fs, values, opts, beta) {
            let hs = sorted_flags(gs);
            lemma_sorted_flags(gs);
            assert forall|n: Seq<char>| #[trigger] flag_names(hs).contains(n) <==> flag_names(
                gs,
            ).contains(n) by {
                if flag_names(hs).contains(n) {
                    let k = choose|k: int| 0 <= k < hs.len() && flag_names(hs)[k] == n;
                    lemma_sorted_flags_contains(gs, hs[k]);
                    assert(hs.contains(hs[k]));
                    let m = choose|m: int| 0 <= m < gs.len() && gs[m] == hs[k];
                    assert(flag_names(gs)[m] == n);
                }
                if flag_names(gs).contains(n) {
                    let m = choose|m: int| 0 <= m < gs.len() && flag_names(gs)[m] == n;
                    lemma_sorted_flags_contains(gs, gs[m]);
                    assert(gs.contains(gs[m]));
                    let k = choose|k: int| 0 <= k < hs.len() && hs[k] == gs[m];
                    assert(flag_names(hs)[k] == n);
                }
            }
        }
    }
}

proof fn lemma_apply_values_split(
    flags: Seq<ParsedFlagView>,
    source: Seq<char>,
    values: Seq<FlagValue>,
    opts: ExtendedPermissionsOptions,
    beta: Option<Map<Seq<char>, NamespaceSetting>>,
    k: int,
)
    requires
        0 <= k <= values.len(),
    ensures
        apply_values(flags, source, values, opts, beta) == match apply_values(
            flags,
            source,
            values.take(k),
            opts,
            beta,
        ) {
            Ok(gs) => apply_values(gs, source, values.skip(k), opts, beta),
            Err(e) => Err(e),
        },
    decreases k,
{
    if k == 0 {
        assert(values.take(0) =~= Seq::<FlagValue>::empty());
        assert(values.skip(0) =~= values);
    } else {
        assert(values.take(k)[0] == values[0]);
        assert(values.take(k).drop_first() =~= values.drop_first().take(k - 1));
        assert(values.drop_first().skip(k - 1) =~= values.skip(k));
        if let Ok(fs) = apply_value(flags, source, values[0], opts, beta) {
            lemma_apply_values_split(fs, source, values.drop_first(), opts, beta, k - 1);
        }
    }
}

proof fn lemma_apply_inputs_split(
    flags: Seq<ParsedFlagView>,
    inputs: Seq<Input<FlagValues>>,
    opts: ExtendedPermissionsOptions,
    beta: Option<Map<Seq<char>, NamespaceSetting>>,
    m: int,
)
    requires
        0 <= m <= inputs.len(),
    ensures
        apply_inputs(flags, inputs, opts, beta) == match apply_inputs(
            flags,
            inputs.take(m),
            opts,
            beta,
        ) {
            Ok(gs) => apply_inputs(gs, inputs.skip(m), opts, beta),
            Err(e) => Err(e),
        },
    decreases m,
{
    if m == 0 {
        assert(inputs.take(0) =~= Seq::<Input<FlagValues>>::empty());
        assert(inputs.skip(0) =~= inputs);
    } else {
        assert(inputs.take(m)[0] == inputs[0]);
        assert(inputs.take(m).drop_first() =~= inputs.drop_first().take(m - 1));
        assert(inputs.drop_first().skip(m - 1) =~= inputs.skip(m));
        if let Ok(fs) = apply_values(
            flags,
            inputs[0].source@,
            inputs[0].content.flag_value@,
            opts,
            beta,
        ) {
            lemma_apply_inputs_split(fs, inputs.drop_first(), opts, beta, m - 1);
        }
    }
}

/// A value that gives a fixed read-only flag a permission other than
/// read-only is refused: when the declarations, the values files before
/// its own and the values before it in its file have been applied without
/// error, parsing fails with an error that names the flag.
pub proof fn lemma_fixed_read_only_refused(
    package: Seq<char>,
    container: Seq<char>,
    declarations: Seq<Input<FlagDeclarations>>,
    values: Seq<Input<FlagValues>>,
    beta: Option<Map<Seq<char>, NamespaceSetting>>,
    opts: ExtendedPermissionsOptions,
    m: int,
    k: int,
)
    requires
        0 <= m < values.len(),
        0 <= k < values[m].content.flag_value@.len(),
        declare_inputs(Seq::empty(), package, container, declarations, opts, beta) matches Ok(fs)
            && apply_inputs(fs, values.take(m), opts, beta) matches Ok(hs) && apply_values(
            hs,
            values[m].source@,
            values[m].content.flag_value@.take(k),
            opts,
            beta,
        ) matches Ok(gs) && find_flag(
            gs,
            values[m].content.flag_value@[k].package@,
            values[m].content.flag_value@[k].name@,
        ) matches Some(i) && gs[i].is_fixed_read_only,
        values[m].content.flag_value@[k].permission != FlagPermission::ReadOnly,
    ensures
        spec_parse_flags(package, container, declarations, values, beta, opts) == Err::<
            Seq<ParsedFlagView>,
            AconfigErrorView,
        >(AconfigErrorView::FixedReadOnly { name: values[m].content.flag_value@[k].name@ }),
{
    let fs = declare_inputs(Seq::empty(), package, container, declarations, opts, beta)->Ok_0;
    let hs = apply_inputs(fs, values.take(m), opts, beta)->Ok_0;
    let vs = values[m].content.flag_value@;
    let src = values[m].source@;
    let gs = apply_values(hs, src, vs.take(k), opts, beta)->Ok_0;
    let v = vs[k];
    lemma_apply_inputs_split(fs, values, opts, beta, m);
    lemma_apply_values_split(hs, src, vs, opts, beta, k);
    assert(vs.skip(k)[0] == v);
    assert(apply_value(gs, src, v, opts, beta) == Err::<Seq<ParsedFlagView>, AconfigErrorView>(
        AconfigErrorView::FixedReadOnly { name: v.name@ },
    ));
    assert(values.skip(m)[0] == values[m]);
}

/// Whether the value `v` is for the flag `f`.
pub open spec fn value_names(v: FlagValue, f: ParsedFlagView) -> bool {
    v.package@ == f.package && v.name@ == f.name
}

/// The trace entry that the value `v` of the values file `source` leaves:
/// its state, and its permission, read-only when read-only is forced.
pub open spec fn value_tracepoint(
    source: Seq<char>,
    v: FlagValue,
    opts: ExtendedPermissionsOptions,
) -> TracepointView {
    TracepointView {
        source: source,
        state: v.state,
        permission: if opts.force_read_only {
            FlagPermission::ReadOnly
        } else {
            v.permission
        },
    }
}

/// The trace entries that the values of the file `source` leave on the
/// flag `f`: one for each value for it, in order.
pub open spec fn value_trace(
    values: Seq<FlagValue>,
    source: Seq<char>,
    f: ParsedFlagView,
    opts: ExtendedPermissionsOptions,
) -> Seq<TracepointView>
    decreases values.len(),
{
    if values.len() == 0 {
        Seq::empty()
    } else {
        (if value_names(values[0], f) {
            seq![value_tracepoint(source, values[0], opts)]
        } else {
            Seq::empty()
        }) + value_trace(values.drop_first(), source, f, opts)
    }
}

/// The trace entries that the values files leave on the flag `f`, file by
/// file and in order.
pub open spec fn inputs_trace(
    inputs: Seq<Input<FlagValues>>,
    f: ParsedFlagView,
    opts: ExtendedPermissionsOptions,
) -> Seq<TracepointView>
    decreases inputs.len(),
{
    if inputs.len() == 0 {
        Seq::empty()
    } else {
        value_trace(inputs[0].content.flag_value@, inputs[0].source@, f, opts) + inputs_trace(
            inputs.drop_first(),
            f,
            opts,
        )
    }
}

/// What the trace of a freshly declared flag holds: one entry, disabled,
/// with the permission the flag was declared with.
pub open spec fn declared_trace(f: ParsedFlagView, opts: ExtendedPermissionsOptions) -> bool {
    &&& f.trace.len() == 1
    &&& f.trace[0].state == FlagState::Disabled
    &&& f.trace[0].permission == if f.is_fixed_read_only || opts.force_read_only {
        FlagPermission::ReadOnly
    } else {
        opts.default_permission
    }
}

/// The flag `f` was declared by the declarations file `inputs[d]`: that
/// file holds a declaration whose name, namespace, description, bugs, marks
/// and purpose `f` carries, and the first trace entry of `f` names that
/// file.
pub open spec fn declared_by(f: ParsedFlagView, inputs: Seq<Input<FlagDeclarations>>, d: int) -> bool {
    &&& 0 <= d < inputs.len()
    &&& exists|e: int|
        0 <= e < inputs[d].content.flag@.len() && carries_declaration(
            f,
            #[trigger] inputs[d].content.flag@[e],
        )
    &&& f.trace.len() > 0
    &&& f.trace[0].source == inputs[d].source@
}

/// The purpose of a flag, where it has metadata.
pub open spec fn purpose_of(f: ParsedFlagView) -> Option<FlagPurpose> {
    match f.metadata {
        Some(m) => Some(m.purpose),
        None => None,
    }
}

/// `g` and `f` agree on what their declaration gave them: package, name,
/// namespace, description, bugs, fixed read-only and exported marks, and
/// purpose.
pub open spec fn same_declared_fields(g: ParsedFlagView, f: ParsedFlagView) -> bool {
    &&& g.package == f.package
    &&& g.name == f.name
    &&& g.namespace == f.namespace
    &&& g.description == f.description
    &&& g.bug == f.bug
    &&& g.is_fixed_read_only == f.is_fixed_read_only
    &&& g.is_exported == f.is_exported
    &&& purpose_of(g) == purpose_of(f)
}

/// The flag `f` carries what the declaration `d` says of it: name,
/// namespace, description, bugs, fixed read-only and exported marks, and
/// purpose.
pub open spec fn carries_declaration(f: ParsedFlagView, d: FlagDeclaration) -> bool {
    &&& f.name == d.name@
    &&& f.namespace == d.namespace@
    &&& f.description == d.description@
    &&& f.bug == strings_view(d.bug@)
    &&& f.is_fixed_read_only == d.is_fixed_read_only
    &&& f.is_exported == d.is_exported
    &&& purpose_of(f) == Some(d.purpose)
}

/// The number of values of the file for the flag `f`.
pub open spec fn count_values_for(values: Seq<FlagValue>, f: ParsedFlagView) -> nat
    decreases values.len(),
{
    if values.len() == 0 {
        0
    } else {
        (if value_names(values[0], f) {
            1nat
        } else {
            0nat
        }) + count_values_for(values.drop_first(), f)
    }
}

/// The number of values for the flag `f` in all the values files.
pub open spec fn count_inputs_values_for(inputs: Seq<Input<FlagValues>>, f: ParsedFlagView) -> nat
    decreases inputs.len(),
{
    if inputs.len() == 0 {
        0
    } else {
        count_values_for(inputs[0].content.flag_value@, f) + count_inputs_values_for(
            inputs.drop_first(),
            f,
        )
    }
}

proof fn lemma_value_trace_len(
    values: Seq<FlagValue>,
    source: Seq<char>,
    f: ParsedFlagView,
    opts: ExtendedPermissionsOptions,
)
    ensures
        value_trace(values, source, f, opts).len() == count_values_for(values, f),
    decreases values.len(),
{
    if values.len() > 0 {
        lemma_value_trace_len(values.drop_first(), source, f, opts);
    }
}

proof fn lemma_inputs_trace_len(
    inputs: Seq<Input<FlagValues>>,
    f: ParsedFlagView,
    opts: ExtendedPermissionsOptions,
)
    ensures
        inputs_trace(inputs, f, opts).len() == count_inputs_values_for(inputs, f),
    decreases inputs.len(),
{
    if inputs.len() > 0 {
        lemma_value_trace_len(inputs[0].content.flag_value@, inputs[0].source@, f, opts);
        lemma_inputs_trace_len(inputs.drop_first(), f, opts);
    }
}

proof fn lemma_declare_flags_trace(
    flags: Seq<ParsedFlagView>,
    package: Seq<char>,
    container: Seq<char>,
    opts: ExtendedPermissionsOptions,
    beta: Option<Map<Seq<char>, NamespaceSetting>>,
    all: Seq<Input<FlagDeclarations>>,
    d: int,
    e0: int,
)
    requires
        0 <= d < all.len(),
        0 <= e0 <= all[d].content.flag@.len(),
        forall|j: int|
            0 <= j < flags.len() ==> declared_trace(#[trigger] flags[j], opts) && exists|d1: int|
                #[trigger] declared_by(flags[j], all, d1),
    ensures
        declare_flags(
            flags,
            package,
            container,
            all[d].source@,
            all[d].content.flag@.skip(e0),
            opts,
            beta,
        ) matches Ok(fs) ==> forall|j: int|
            0 <= j < fs.len() ==> declared_trace(#[trigger] fs[j], opts) && exists|d1: int|
                #[trigger] declared_by(fs[j], all, d1),
    decreases all[d].content.flag@.len() - e0,
{
    let decls = all[d].content.flag@.skip(e0);
    let source = all[d].source@;
    if decls.len() == 0 {
        assert(declare_flags(flags, package, container, source, decls, opts, beta) == Ok::<
            Seq<ParsedFlagView>,
            AconfigErrorView,
        >(flags));
    } else {
        if let Ok(fs) = declare_flag(flags, package, container, source, decls[0], opts, beta) {
            let f = new_flag(package, container, source, decls[0], opts, beta);
            assert(fs == flags.push(f));
            assert(decls[0] == all[d].content.flag@[e0]);
            assert(carries_declaration(f, all[d].content.flag@[e0]));
            assert(declared_by(f, all, d));
            assert forall|j: int| 0 <= j < fs.len() implies declared_trace(#[trigger] fs[j], opts)
                && exists|d1: int| #[trigger] declared_by(fs[j], all, d1) by {
                if j < flags.len() {
                    assert(fs[j] == flags[j]);
                }
            }
            assert(decls.drop_first() =~= all[d].content.flag@.skip(e0 + 1));
            lemma_declare_flags_trace(fs, package, container, opts, beta, all, d, e0 + 1);
            assert(declare_flags(flags, package, container, source, decls, opts, beta)
                == declare_flags(fs, package, container, source, decls.drop_first(), opts, beta));
        }
    }
}

proof fn lemma_declare_inputs_trace(
    flags: Seq<ParsedFlagView>,
    package: Seq<char>,
    container: Seq<char>,
    opts: ExtendedPermissionsOptions,
    beta: Option<Map<Seq<char>, NamespaceSetting>>,
    all: Seq<Input<FlagDeclarations>>,
    d0: int,
)
    requires
        0 <= d0 <= all.len(),
        forall|j: int|
            0 <= j < flags.len() ==> declared_trace(#[trigger] flags[j], opts) && exists|d1: int|
                #[trigger] declared_by(flags[j], all, d1),
    ensures
        declare_inputs(flags, package, container, all.skip(d0), opts, beta) matches Ok(fs)
            ==> forall|j: int|
            0 <= j < fs.len() ==> declared_trace(#[trigger] fs[j], opts) && exists|d1: int|
                #[trigger] declared_by(fs[j], all, d1),
    decreases all.len() - d0,
{
    let inputs = all.skip(d0);
    if inputs.len() > 0 {
        assert(inputs[0] == all[d0]);
        assert(all[d0].content.flag@.skip(0) =~= all[d0].content.flag@);
        lemma_declare_flags_trace(flags, package, container, opts, beta, all, d0, 0);
        if let Ok(fs) = declare_input(flags, package, container, inputs[0], opts, beta) {
            assert(declare_flags(
                flags,
                package,
                container,
                all[d0].source@,
                all[d0].content.flag@.skip(0),
                opts,
                beta,
            ) == Ok::<Seq<ParsedFlagView>, AconfigErrorView>(fs));
            assert(inputs.drop_first() =~= all.skip(d0 + 1));
            lemma_declare_inputs_trace(fs, package, container, opts, beta, all, d0 + 1);
        }
    }
}

proof fn lemma_find_flag_none(flags: Seq<ParsedFlagView>, package: Seq<char>, name: Seq<char>)
    ensures
        find_flag(flags, package, name) is None ==> forall|j: int|
            0 <= j < flags.len() ==> !((#[trigger] flags[j]).package == package && flags[j].name
                == name),
    decreases flags.len(),
{
    if flags.len() > 0 {
        lemma_find_flag_none(flags.drop_first(), package, name);
        if find_flag(flags, package, name) is None {
            assert forall|j: int| 0 <= j < flags.len() implies !((#[trigger] flags[j]).package
                == package && flags[j].name == name) by {
                if j > 0 {
                    assert(flags[j] == flags.drop_first()[j - 1]);
                }
            }
        }
    }
}

proof fn lemma_apply_value_trace(
    flags: Seq<ParsedFlagView>,
    source: Seq<char>,
    v: FlagValue,
    opts: ExtendedPermissionsOptions,
    beta: Option<Map<Seq<char>, NamespaceSetting>>,
)
    requires
        names_unique(flags),
    ensures
        apply_value(flags, source, v, opts, beta) matches Ok(gs) ==> {
            &&& gs.len() == flags.len()
            &&& forall|j: int|
                0 <= j < gs.len() ==> {
                    &&& (#[trigger] gs[j]).trace == flags[j].trace + value_trace(
                        seq![v],
                        source,
                        flags[j],
                        opts,
                    )
                    &&& same_declared_fields(gs[j], flags[j])
                }
        },
{
    lemma_find_flag_found(flags, v.package@, v.name@);
    lemma_find_flag_none(flags, v.package@, v.name@);
    if let Ok(gs) = apply_value(flags, source, v, opts, beta) {
        assert forall|j: int| 0 <= j < gs.len() implies {
            &&& (#[trigger] gs[j]).trace == flags[j].trace + value_trace(
                seq![v],
                source,
                flags[j],
                opts,
            )
            &&& same_declared_fields(gs[j], flags[j])
        } by {
            let vt = value_trace(seq![v], source, flags[j], opts);
            assert(seq![v].drop_first() =~= Seq::<FlagValue>::empty());
            assert(value_trace(seq![v].drop_first(), source, flags[j], opts) =~= Seq::<
                TracepointView,
            >::empty());
            match find_flag(flags, v.package@, v.name@) {
                None => {
                    assert(!value_names(v, flags[j]));
                    assert(vt =~= Seq::<TracepointView>::empty());
                    assert(flags[j].trace + vt =~= flags[j].trace);
                },
                Some(i) => {
                    if j == i {
                        assert(vt =~= seq![value_tracepoint(source, v, opts)]);
                        assert(flags[j].trace + vt =~= flags[j].trace.push(
                            value_tracepoint(source, v, opts),
                        ));
                    } else {
                        assert(flags[j].name != flags[i].name);
                        assert(!value_names(v, flags[j]));
                        assert(vt =~= Seq::<TracepointView>::empty());
                        assert(flags[j].trace + vt =~= flags[j].trace);
                    }
                },
            }
        }
    }
}

proof fn lemma_apply_values_trace(
    flags: Seq<ParsedFlagView>,
    source: Seq<char>,
    values: Seq<FlagValue>,
    opts: ExtendedPermissionsOptions,
    beta: Option<Map<Seq<char>, NamespaceSetting>>,
)
    requires
        names_unique(flags),
    ensures
        apply_values(flags, source, values, opts, beta) matches Ok(gs) ==> {
            &&& gs.len() == flags.len()
            &&& forall|j: int|
                0 <= j < gs.len() ==> {
                    &&& (#[trigger] gs[j]).trace == flags[j].trace + value_trace(
                        values,
                        source,
                        flags[j],
                        opts,
                    )
                    &&& same_declared_fields(gs[j], flags[j])
                }
        },
    decreases values.len(),
{
    if values.len() == 0 {
        if let Ok(gs) = apply_values(flags, source, values, opts, beta) {
            assert forall|j: int| 0 <= j < gs.len() implies (#[trigger] gs[j]).trace
                == flags[j].trace + value_trace(values, source, flags[j], opts) by {
                assert(flags[j].trace + value_trace(values, source, flags[j], opts) =~= flags[j].trace);
            }
        }
    } else {
        lemma_apply_value_trace(flags, source, values[0], opts, beta);
        if let Ok(fs) = apply_value(flags, source, values[0], opts, beta) {
            lemma_apply_values_names(flags, source, seq![values[0]], opts, beta);
            assert(seq![values[0]].drop_first() =~= Seq::<FlagValue>::empty());
            assert(apply_values(flags, source, seq![values[0]], opts, beta) == apply_values(
                fs,
                source,
                Seq::<FlagValue>::empty(),
                opts,
                beta,
            ));
            assert forall|a: int, b: int|
                0 <= a < fs.len() && 0 <= b < fs.len() && a != b implies (#[trigger] fs[a]).name
                != (#[trigger] fs[b]).name by {
                assert(flag_names(fs)[a] == flag_names(flags)[a]);
                assert(flag_names(fs)[b] == flag_names(flags)[b]);
            }
            lemma_apply_values_trace(fs, source, values.drop_first(), opts, beta);
            if let Ok(gs) = apply_values(fs, source, values.drop_first(), opts, beta) {
                assert forall|j: int| 0 <= j < gs.len() implies (#[trigger] gs[j]).trace
                    == flags[j].trace + value_trace(values, source, flags[j], opts) by {
                    let one = value_trace(seq![values[0]], source, flags[j], opts);
                    assert(value_trace(seq![values[0]].drop_first(), source, flags[j], opts)
                        =~= Seq::<TracepointView>::empty());
                    assert(seq![values[0]][0] == values[0]);
                    assert(one =~= (if value_names(values[0], flags[j]) {
                        seq![value_tracepoint(source, values[0], opts)]
                    } else {
                        Seq::<TracepointView>::empty()
                    }));
                    assert(value_trace(values.drop_first(), source, fs[j], opts) == value_trace(
                        values.drop_first(),
                        source,
                        flags[j],
                        opts,
                    )) by {
                        lemma_value_trace_depends_on_names(
                            values.drop_first(),
                            source,
                            fs[j],
                            flags[j],
                            opts,
                        );
                    }
                    assert(flags[j].trace + one + value_trace(
                        values.drop_first(),
                        source,
                        flags[j],
                        opts,
                    ) =~= flags[j].trace + value_trace(values, source, flags[j], opts));
                }
            }
        }
    }
}

proof fn lemma_value_trace_depends_on_names(
    values: Seq<FlagValue>,
    source: Seq<char>,
    f: ParsedFlagView,
    g: ParsedFlagView,
    opts: ExtendedPermissionsOptions,
)
    requires
        f.package == g.package,
        f.name == g.name,
    ensures
        value_trace(values, source, f, opts) == value_trace(values, source, g, opts),
    decreases values.len(),
{
    if values.len() > 0 {
        lemma_value_trace_depends_on_names(values.drop_first(), source, f, g, opts);
    }
}

proof fn lemma_inputs_trace_depends_on_names(
    inputs: Seq<Input<FlagValues>>,
    f: ParsedFlagView,
    g: ParsedFlagView,
    opts: ExtendedPermissionsOptions,
)
    requires
        f.package == g.package,
        f.name == g.name,
    ensures
        inputs_trace(inputs, f, opts) == inputs_trace(inputs, g, opts),
    decreases inputs.len(),
{
    if inputs.len() > 0 {
        lemma_value_trace_depends_on_names(
            inputs[0].content.flag_value@,
            inputs[0].source@,
            f,
            g,
            opts,
        );
        lemma_inputs_trace_depends_on_names(inputs.drop_first(), f, g, opts);
    }
}

proof fn lemma_apply_inputs_trace(
    flags: Seq<ParsedFlagView>,
    inputs: Seq<Input<FlagValues>>,
    opts: ExtendedPermissionsOptions,
    beta: Option<Map<Seq<char>, NamespaceSetting>>,
)
    requires
        names_unique(flags),
    ensures
        apply_inputs(flags, inputs, opts, beta) matches Ok(gs) ==> {
            &&& gs.len() == flags.len()
            &&& forall|j: int|
                0 <= j < gs.len() ==> {
                    &&& (#[trigger] gs[j]).trace == flags[j].trace + inputs_trace(
                        inputs,
                        flags[j],
                        opts,
                    )
                    &&& same_declared_fields(gs[j], flags[j])
                }
        },
    decreases inputs.len(),
{
    if inputs.len() == 0 {
        if let Ok(gs) = apply_inputs(flags, inputs, opts, beta) {
            assert forall|j: int| 0 <= j < gs.len() implies (#[trigger] gs[j]).trace
                == flags[j].trace + inputs_trace(inputs, flags[j], opts) by {
                assert(flags[j].trace + inputs_trace(inputs, flags[j], opts) =~= flags[j].trace);
            }
        }
    } else {
        let src = inputs[0].source@;
        let vs = inputs[0].content.flag_value@;
        lemma_apply_values_trace(flags, src, vs, opts, beta);
        lemma_apply_values_names(flags, src, vs, opts, beta);
        if let Ok(fs) = apply_values(flags, src, vs, opts, beta) {
            assert forall|a: int, b: int|
                0 <= a < fs.len() && 0 <= b < fs.len() && a != b implies (#[trigger] fs[a]).name
                != (#[trigger] fs[b]).name by {
                assert(flag_names(fs)[a] == flag_names(flags)[a]);
                assert(flag_names(fs)[b] == flag_names(flags)[b]);
            }
            lemma_apply_inputs_trace(fs, inputs.drop_first(), opts, beta);
            if let Ok(gs) = apply_inputs(fs, inputs.drop_first(), opts, beta) {
                assert forall|j: int| 0 <= j < gs.len() implies (#[trigger] gs[j]).trace
                    == flags[j].trace + inputs_trace(inputs, flags[j], opts) by {
                    lemma_inputs_trace_depends_on_names(inputs.drop_first(), fs[j], flags[j], opts);
                    assert(flags[j].trace + value_trace(vs, src, flags[j], opts) + inputs_trace(
                        inputs.drop_first(),
                        flags[j],
                        opts,
                    ) =~= flags[j].trace + inputs_trace(inputs, flags[j], opts));
                }
            }
        }
    }
}

/// The trace of a parsed flag: its first entry is its declaration,
/// disabled, naming the declarations file that declares the flag, with the
/// permission it was declared with (read-only when it is fixed read-only
/// or read-only is forced, the default permission otherwise); then come one
/// entry for each value for it, values file by values file and in order, so
/// that the trace holds one entry more than there are values for the flag.
/// Its state and permission are those of the last entry; a flag that no
/// value names stays disabled.
pub proof fn lemma_parsed_flag_traces(
    package: Seq<char>,
    container: Seq<char>,
    declarations: Seq<Input<FlagDeclarations>>,
    values: Seq<Input<FlagValues>>,
    beta: Option<Map<Seq<char>, NamespaceSetting>>,
    opts: ExtendedPermissionsOptions,
)
    ensures
        spec_parse_flags(package, container, declarations, values, beta, opts) matches Ok(fs)
            ==> forall|i: int|
            0 <= i < fs.len() ==> {
                &&& (#[trigger] fs[i]).trace.len() == 1 + count_inputs_values_for(values, fs[i])
                &&& fs[i].trace[0].state == FlagState::Disabled
                &&& fs[i].trace[0].permission == if fs[i].is_fixed_read_only
                    || opts.force_read_only {
                    FlagPermission::ReadOnly
                } else {
                    opts.default_permission
                }
                &&& exists|d: int| #[trigger] declared_by(fs[i], declarations, d)
                &&& fs[i].trace.drop_first() == inputs_trace(values, fs[i], opts)
                &&& fs[i].state == fs[i].trace.last().state
                &&& fs[i].permission == fs[i].trace.last().permission
                &&& count_inputs_values_for(values, fs[i]) == 0 ==> fs[i].state
                    == FlagState::Disabled
            },
{
    let empty = Seq::<ParsedFlagView>::empty();
    assert(declarations.skip(0) =~= declarations);
    lemma_declare_inputs_trace(empty, package, container, opts, beta, declarations, 0);
    lemma_parsed_flags_consistent(package, container, declarations, values, beta, opts);
    lemma_declare_inputs_ok(empty, package, container, declarations, opts, beta);
    if let Ok(fs) = declare_inputs(empty, package, container, declarations, opts, beta) {
        lemma_apply_inputs_trace(fs, values, opts, beta);
        if let Ok(gs) = apply_inputs(fs, values, opts, beta) {
            if spec_parse_flags(package, container, declarations, values, beta, opts) is Ok {
                let hs = sorted_flags(gs);
                lemma_sorted_flags(gs);
                assert forall|i: int| 0 <= i < hs.len() implies {
                    &&& (#[trigger] hs[i]).trace.len() == 1 + count_inputs_values_for(values, hs[i])
                    &&& hs[i].trace[0].state == FlagState::Disabled
                    &&& hs[i].trace[0].permission == if hs[i].is_fixed_read_only
                        || opts.force_read_only {
                        FlagPermission::ReadOnly
                    } else {
                        opts.default_permission
                    }
                    &&& exists|d: int| #[trigger] declared_by(hs[i], declarations, d)
                    &&& hs[i].trace.drop_first() == inputs_trace(values, hs[i], opts)
                } by {
                    lemma_sorted_flags_contains(gs, hs[i]);
                    assert(hs.contains(hs[i]));
                    let m = choose|m: int| 0 <= m < gs.len() && gs[m] == hs[i];
                    assert(declared_trace(fs[m], opts));
                    let d = choose|d: int| declared_by(fs[m], declarations, d);
                    lemma_inputs_trace_depends_on_names(values, fs[m], gs[m], opts);
                    lemma_inputs_trace_len(values, gs[m], opts);
                    assert(gs[m].trace[0] == fs[m].trace[0]);
                    assert(gs[m].trace.drop_first() =~= inputs_trace(values, fs[m], opts));
                    let e = choose|e: int|
                        0 <= e < declarations[d].content.flag@.len() && carries_declaration(
                            fs[m],
                            #[trigger] declarations[d].content.flag@[e],
                        );
                    assert(carries_declaration(gs[m], declarations[d].content.flag@[e]));
                    assert(declared_by(gs[m], declarations, d));
                }
            }
        }
    }
}

proof fn lemma_first_read_write_some(flags: Seq<ParsedFlagView>)
    ensures
        first_read_write(flags) matches Some(i) ==> {
            &&& 0 <= i < flags.len()
            &&& flags[i].permission == FlagPermission::ReadWrite
            &&& forall|j: int| 0 <= j < i ==> (#[trigger] flags[j]).permission
                != FlagPermission::ReadWrite
        },
    decreases flags.len(),
{
    if flags.len() > 0 && flags[0].permission != FlagPermission::ReadWrite {
        lemma_first_read_write_some(flags.drop_first());
        if let Some(i) = first_read_write(flags) {
            assert forall|j: int| 0 <= j < i implies (#[trigger] flags[j]).permission
                != FlagPermission::ReadWrite by {
                if j > 0 {
                    assert(flags[j] == flags.drop_first()[j - 1]);
                }
            }
            assert(flags[i] == flags.drop_first()[i - 1]);
        }
    }
}

/// The flags once declared and given their values, before the check of
/// read-write flags and the sort.
pub open spec fn applied_flags(
    package: Seq<char>,
    container: Seq<char>,
    declarations: Seq<Input<FlagDeclarations>>,
    values: Seq<Input<FlagValues>>,
    beta: Option<Map<Seq<char>, NamespaceSetting>>,
    opts: ExtendedPermissionsOptions,
) -> Result<Seq<ParsedFlagView>, AconfigErrorView> {
    match declare_inputs(Seq::empty(), package, container, declarations, opts, beta) {
        Err(e) => Err(e),
        Ok(fs) => apply_inputs(fs, values, opts, beta),
    }
}

/// When read-write flags are not allowed, a flag still read-write once the
/// declarations and values are applied is refused: parsing fails with an
/// error that names the first such flag in order of declaration.
pub proof fn lemma_read_write_refused(
    package: Seq<char>,
    container: Seq<char>,
    declarations: Seq<Input<FlagDeclarations>>,
    values: Seq<Input<FlagValues>>,
    beta: Option<Map<Seq<char>, NamespaceSetting>>,
    opts: ExtendedPermissionsOptions,
)
    requires
        !opts.allow_read_write,
    ensures
        applied_flags(package, container, declarations, values, beta, opts) matches Ok(gs) ==> (
        exists|k: int| 0 <= k < gs.len() && (#[trigger] gs[k]).permission == FlagPermission::ReadWrite)
            ==> exists|i: int|
            {
                &&& 0 <= i < gs.len()
                &&& (#[trigger] gs[i]).permission == FlagPermission::ReadWrite
                &&& forall|j: int| 0 <= j < i ==> (#[trigger] gs[j]).permission
                    != FlagPermission::ReadWrite
                &&& spec_parse_flags(package, container, declarations, values, beta, opts) == Err::<
                    Seq<ParsedFlagView>,
                    AconfigErrorView,
                >(AconfigErrorView::ReadWriteNotAllowed { name: gs[i].name })
            },
{
    if let Ok(gs) = applied_flags(package, container, declarations, values, beta, opts) {
        if exists|k: int| 0 <= k < gs.len() && (#[trigger] gs[k]).permission
            == FlagPermission::ReadWrite {
            let k = choose|k: int| 0 <= k < gs.len() && (#[trigger] gs[k]).permission
                == FlagPermission::ReadWrite;
            if first_read_write(gs) is None {
                lemma_first_read_write_none(gs, k);
            }
            lemma_first_read_write_some(gs);
            let i = first_read_write(gs)->Some_0;
            assert(gs[i].permission == FlagPermission::ReadWrite);
        }
    }
}

} // verus!
