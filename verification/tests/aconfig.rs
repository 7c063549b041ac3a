use build_tools::codegen::{create_device_config_ident, get_flag_offset_in_storage_file, CodegenMode};
use build_tools::commands::{
    assign_flag_ids, compute_flags_fingerprint, create_cpp_lib,
    create_java_lib, create_rust_lib, extract_flag_names, modify_parsed_flags_based_on_mode,
};
use build_tools::cpp::{cpp_codegen_aborts, cpp_file_specs, generate_cpp_code};
use build_tools::errors::AconfigError;
use build_tools::flags::{
    should_include_flag, FlagDeclaration, FlagDeclarations, FlagPermission, FlagPurpose,
    FlagState, FlagStorageBackend, FlagValue, FlagValues, ParsedFlag,
};
use build_tools::parse::{
    declarations_abort, parse_flags, ExtendedPermissionsOptions, Input, MainlineBetaNamespaces,
    NamespaceSetting,
};
use build_tools::StringHashMap;

const PACKAGE: &str = "com.android.aconfig.test";

fn declaration(
    name: &str,
    namespace: &str,
    description: &str,
    is_fixed_read_only: bool,
    is_exported: bool,
    purpose: FlagPurpose,
) -> FlagDeclaration {
    FlagDeclaration {
        name: name.to_string(),
        namespace: namespace.to_string(),
        description: description.to_string(),
        bug: vec!["123".to_string()],
        is_fixed_read_only,
        is_exported,
        purpose,
    }
}

fn value(name: &str, state: FlagState, permission: FlagPermission) -> FlagValue {
    FlagValue { package: PACKAGE.to_string(), name: name.to_string(), state, permission }
}

fn test_declarations() -> Input<FlagDeclarations> {
    let p = FlagPurpose::Unspecified;
    let flag = vec![
        declaration("disabled_ro", "aconfig_test", "This flag is DISABLED + READ_ONLY", false, false, p),
        declaration("disabled_rw", "aconfig_test", "This flag is DISABLED + READ_WRITE", false, false, p),
        declaration("disabled_rw_exported", "aconfig_test", "An exported flag", false, true, p),
        declaration("disabled_rw_in_other_namespace", "other_namespace", "In another namespace", false, false, p),
        declaration("enabled_fixed_ro", "aconfig_test", "A fixed read-only flag", true, false, p),
        declaration("enabled_fixed_ro_exported", "aconfig_test", "An exported fixed read-only flag", true, true, p),
        declaration("enabled_ro", "aconfig_test", "This flag is ENABLED + READ_ONLY", false, false, FlagPurpose::Bugfix),
        declaration("enabled_ro_exported", "aconfig_test", "An exported read-only flag", false, true, p),
        declaration("enabled_rw", "aconfig_test", "This flag is ENABLED + READ_WRITE", false, false, p),
    ];
    Input {
        source: "tests/test.aconfig".to_string(),
        content: FlagDeclarations {
            package: PACKAGE.to_string(),
            container: "system".to_string(),
            flag,
        },
    }
}

fn test_values() -> Vec<Input<FlagValues>> {
    let (ro, rw) = (FlagPermission::ReadOnly, FlagPermission::ReadWrite);
    let (off, on) = (FlagState::Disabled, FlagState::Enabled);
    let first = vec![
        value("disabled_ro", off, ro),
        value("enabled_ro", off, rw),
        value("enabled_rw", on, rw),
        value("enabled_fixed_ro", on, ro),
        value("enabled_fixed_ro_exported", on, ro),
        value("enabled_ro_exported", on, ro),
        value("disabled_rw_in_other_namespace", off, rw),
    ];
    let second = vec![value("enabled_ro", on, ro)];
    vec![
        Input { source: "tests/first.values".to_string(), content: FlagValues { flag_value: first } },
        Input { source: "tests/second.values".to_string(), content: FlagValues { flag_value: second } },
    ]
}

fn options(default_permission: FlagPermission, allow_read_write: bool, force_read_only: bool) -> ExtendedPermissionsOptions {
    ExtendedPermissionsOptions { default_permission, allow_read_write, force_read_only }
}

fn parse_test_flags() -> Vec<ParsedFlag> {
    parse_flags(
        PACKAGE,
        "system",
        vec![test_declarations()],
        test_values(),
        None,
        options(FlagPermission::ReadWrite, true, false),
    )
    .unwrap()
}

fn find<'a>(flags: &'a [ParsedFlag], name: &str) -> &'a ParsedFlag {
    flags.iter().find(|pf| pf.name == name).unwrap()
}

fn first_declaration(source: &str, package: &str, container: &str, fixed: bool, exported: bool) -> Vec<Input<FlagDeclarations>> {
    vec![Input {
        source: source.to_string(),
        content: FlagDeclarations {
            package: package.to_string(),
            container: container.to_string(),
            flag: vec![FlagDeclaration {
                name: "first".to_string(),
                namespace: "first_ns".to_string(),
                description: "This is the description of the first flag.".to_string(),
                bug: vec!["123".to_string()],
                is_fixed_read_only: fixed,
                is_exported: exported,
                purpose: FlagPurpose::Unspecified,
            }],
        },
    }]
}

fn first_value(package: &str, state: FlagState, permission: FlagPermission) -> Vec<Input<FlagValues>> {
    vec![Input {
        source: "memory".to_string(),
        content: FlagValues {
            flag_value: vec![FlagValue {
                package: package.to_string(),
                name: "first".to_string(),
                state,
                permission,
            }],
        },
    }]
}

#[test]
fn test_parse_flags() {
    let parsed_flags = parse_test_flags();
    let enabled_ro = find(&parsed_flags, "enabled_ro");
    assert_eq!("com.android.aconfig.test", enabled_ro.package);
    assert_eq!("enabled_ro", enabled_ro.name);
    assert_eq!("This flag is ENABLED + READ_ONLY", enabled_ro.description);
    assert_eq!(FlagState::Enabled, enabled_ro.state);
    assert_eq!(FlagPermission::ReadOnly, enabled_ro.permission);
    assert_eq!(FlagPurpose::Bugfix, enabled_ro.metadata.unwrap().purpose);
    assert_eq!(3, enabled_ro.trace.len());
    assert!(!enabled_ro.is_fixed_read_only);
    assert_eq!("tests/test.aconfig", enabled_ro.trace[0].source);
    assert_eq!(FlagState::Disabled, enabled_ro.trace[0].state);
    assert_eq!(FlagPermission::ReadWrite, enabled_ro.trace[0].permission);
    assert_eq!("tests/first.values", enabled_ro.trace[1].source);
    assert_eq!(FlagState::Disabled, enabled_ro.trace[1].state);
    assert_eq!(FlagPermission::ReadWrite, enabled_ro.trace[1].permission);
    assert_eq!("tests/second.values", enabled_ro.trace[2].source);
    assert_eq!(FlagState::Enabled, enabled_ro.trace[2].state);
    assert_eq!(FlagPermission::ReadOnly, enabled_ro.trace[2].permission);

    assert_eq!(9, parsed_flags.len());
    for pf in parsed_flags.iter() {
        if pf.name.starts_with("enabled_fixed_ro") {
            continue;
        }
        let first = pf.trace.first().unwrap();
        assert_eq!(FlagState::Disabled, first.state);
        assert_eq!(FlagPermission::ReadWrite, first.permission);

        let last = pf.trace.last().unwrap();
        assert_eq!(pf.state, last.state);
        assert_eq!(pf.permission, last.permission);
    }

    let enabled_fixed_ro = find(&parsed_flags, "enabled_fixed_ro");
    assert!(enabled_fixed_ro.is_fixed_read_only);
    assert_eq!(FlagState::Enabled, enabled_fixed_ro.state);
    assert_eq!(FlagPermission::ReadOnly, enabled_fixed_ro.permission);
    assert_eq!(2, enabled_fixed_ro.trace.len());
    assert_eq!(FlagPermission::ReadOnly, enabled_fixed_ro.trace[0].permission);
    assert_eq!(FlagPermission::ReadOnly, enabled_fixed_ro.trace[1].permission);
}

#[test]
fn test_parse_flags_setting_default() {
    let parsed_flags = parse_flags(
        "com.first",
        "test",
        first_declaration("momery", "com.first", "test", false, false),
        vec![],
        None,
        options(FlagPermission::ReadOnly, true, false),
    )
    .unwrap();
    assert_eq!(1, parsed_flags.len());
    assert_eq!(FlagState::Disabled, parsed_flags[0].state);
    assert_eq!(FlagPermission::ReadOnly, parsed_flags[0].permission);
}

#[test]
fn test_parse_flags_package_mismatch_between_declaration_and_command_line() {
    let error = parse_flags(
        "com.argument.package",
        "first.container",
        first_declaration("memory", "com.declaration.package", "first.container", false, false),
        vec![],
        None,
        options(FlagPermission::ReadWrite, true, false),
    )
    .unwrap_err();
    assert_eq!(
        error.message(),
        "failed to parse memory: expected package com.argument.package, got com.declaration.package"
    );
}

#[test]
fn test_parse_flags_container_mismatch_between_declaration_and_command_line() {
    let error = parse_flags(
        "com.first",
        "argument.container",
        first_declaration("memory", "com.first", "declaration.container", false, false),
        vec![],
        None,
        options(FlagPermission::ReadWrite, true, false),
    )
    .unwrap_err();
    assert_eq!(
        error.message(),
        "failed to parse memory: expected container argument.container, got declaration.container"
    );
}

#[test]
fn test_parse_flags_no_allow_read_write_default_error() {
    let error = parse_flags(
        "com.first",
        "com.first.container",
        first_declaration("memory", "com.first", "com.first.container", false, false),
        vec![],
        None,
        options(FlagPermission::ReadWrite, false, false),
    )
    .unwrap_err();
    assert_eq!(error.message(), "flag first has permission READ_WRITE, but allow_read_write is false");
}

#[test]
fn test_parse_flags_no_allow_read_write_value_error() {
    let error = parse_flags(
        "com.first",
        "com.first.container",
        first_declaration("memory", "com.first", "com.first.container", false, false),
        first_value("com.first", FlagState::Disabled, FlagPermission::ReadWrite),
        None,
        options(FlagPermission::ReadOnly, false, false),
    )
    .unwrap_err();
    assert_eq!(error.message(), "flag first has permission READ_WRITE, but allow_read_write is false");
}

#[test]
fn test_parse_flags_no_allow_read_write_success() {
    let parsed_flags = parse_flags(
        "com.first",
        "com.first.container",
        first_declaration("memory", "com.first", "com.first.container", false, false),
        first_value("com.first", FlagState::Disabled, FlagPermission::ReadOnly),
        None,
        options(FlagPermission::ReadOnly, false, false),
    )
    .unwrap();
    assert_eq!(1, parsed_flags.len());
    assert_eq!(FlagState::Disabled, parsed_flags[0].state);
    assert_eq!(FlagPermission::ReadOnly, parsed_flags[0].permission);
}

#[test]
fn test_parse_flags_force_read_only_convert_read_write_to_read_only_success() {
    let parsed_flags = parse_flags(
        "com.first",
        "com.first.container",
        first_declaration("memory", "com.first", "com.first.container", false, false),
        first_value("com.first", FlagState::Disabled, FlagPermission::ReadWrite),
        None,
        options(FlagPermission::ReadOnly, true, true),
    )
    .unwrap();
    assert_eq!(1, parsed_flags.len());
    assert_eq!(FlagState::Disabled, parsed_flags[0].state);
    assert_eq!(FlagPermission::ReadOnly, parsed_flags[0].permission);
}

#[test]
fn test_parse_flags_force_read_only_no_allow_read_write_does_not_fail() {
    let parsed_flags = parse_flags(
        "com.first",
        "com.first.container",
        first_declaration("memory", "com.first", "com.first.container", false, false),
        first_value("com.first", FlagState::Disabled, FlagPermission::ReadWrite),
        None,
        options(FlagPermission::ReadOnly, false, true),
    )
    .unwrap();
    assert_eq!(1, parsed_flags.len());
    assert_eq!(FlagState::Disabled, parsed_flags[0].state);
    assert_eq!(FlagPermission::ReadOnly, parsed_flags[0].permission);
}

#[test]
fn test_parse_flags_override_fixed_read_only() {
    let error = parse_flags(
        "com.first",
        "com.first.container",
        first_declaration("memory", "com.first", "com.first.container", true, false),
        first_value("com.first", FlagState::Disabled, FlagPermission::ReadWrite),
        None,
        options(FlagPermission::ReadWrite, true, false),
    )
    .unwrap_err();
    assert_eq!(
        error.message(),
        "failed to set permission of flag first, since this flag is fixed read only flag"
    );
}

#[test]
fn test_parse_flags_metadata_purpose() {
    let mut declarations = first_declaration("memory", "com.first", "test", false, false);
    declarations[0].content.flag[0].purpose = FlagPurpose::Feature;
    let parsed_flags = parse_flags(
        "com.first",
        "test",
        declarations,
        vec![],
        None,
        options(FlagPermission::ReadOnly, true, false),
    )
    .unwrap();
    assert_eq!(1, parsed_flags.len());
    assert_eq!(FlagPurpose::Feature, parsed_flags[0].metadata.unwrap().purpose);
}

fn beta_namespaces() -> MainlineBetaNamespaces {
    let mut namespaces = StringHashMap::new();
    namespaces.insert(
        "com_android_tethering".to_string(),
        NamespaceSetting { container: "com.android.tethering".to_string(), allow_exported: true },
    );
    namespaces.insert(
        "com_android_networkstack".to_string(),
        NamespaceSetting { container: "com.android.networkstack".to_string(), allow_exported: false },
    );
    MainlineBetaNamespaces { namespaces }
}

fn parse_one(
    container: &str,
    namespace: &str,
    fixed: bool,
    exported: bool,
    value: Option<FlagPermission>,
    config: Option<MainlineBetaNamespaces>,
) -> Result<ParsedFlag, AconfigError> {
    let mut declarations = first_declaration("memory", "com.first", container, fixed, exported);
    declarations[0].content.flag[0].namespace = namespace.to_string();
    let values = match value {
        Some(p) => first_value("com.first", FlagState::Disabled, p),
        None => vec![],
    };
    let opts = options(FlagPermission::ReadWrite, true, false);
    assert!(!declarations_abort("com.first", container, &declarations, &config, opts));
    let parsed = parse_flags(
        "com.first",
        container,
        declarations,
        values,
        config,
        options(FlagPermission::ReadWrite, true, false),
    )?;
    assert_eq!(1, parsed.len());
    Ok(parsed[0].clone())
}

fn storage(pf: &ParsedFlag) -> FlagStorageBackend {
    pf.metadata.unwrap().storage
}

#[test]
fn test_parse_flags_mainline_beta_namespace_config() {
    // A read-write flag without a value override.
    let pf = parse_one("test", "first_ns", false, false, None, Some(beta_namespaces())).unwrap();
    assert_eq!(FlagStorageBackend::Aconfigd, storage(&pf));

    // A read-write flag overridden to read-only.
    let pf = parse_one("test", "first_ns", false, false, Some(FlagPermission::ReadOnly), Some(beta_namespaces()))
        .unwrap();
    assert_eq!(FlagStorageBackend::NoBackend, storage(&pf));

    // A fixed read-only flag.
    let pf = parse_one("test", "first_ns", true, false, None, Some(beta_namespaces())).unwrap();
    assert_eq!(FlagStorageBackend::NoBackend, storage(&pf));

    // A fixed read-only flag of a mainline beta namespace.
    let pf = parse_one("com.android.tethering", "com_android_tethering", true, false, None, Some(beta_namespaces()))
        .unwrap();
    assert_eq!(FlagStorageBackend::NoBackend, storage(&pf));

    // A platform flag in a mainline beta namespace.
    let pf = parse_one("system", "com_android_tethering", false, false, None, Some(beta_namespaces())).unwrap();
    assert_eq!(FlagStorageBackend::Aconfigd, storage(&pf));

    // A mainline flag in a mainline beta namespace.
    let pf = parse_one("com.android.tethering", "com_android_tethering", false, false, None, Some(beta_namespaces()))
        .unwrap();
    assert_eq!(FlagStorageBackend::DeviceConfig, storage(&pf));

    // The same flag without the configuration.
    let pf = parse_one("com.android.tethering", "com_android_tethering", false, false, None, None).unwrap();
    assert_eq!(FlagStorageBackend::Aconfigd, storage(&pf));

    // A container that the namespace does not allow.
    let error = parse_one("com.android.tethering", "com_android_networkstack", false, false, None, Some(beta_namespaces()))
        .unwrap_err();
    assert_eq!(
        error.message(),
        "Creating com.android.tethering container flag in namespace com_android_networkstack is not allowed"
    );

    // An exported flag where the namespace does not allow it.
    let error = parse_one("com.android.networkstack", "com_android_networkstack", false, true, None, Some(beta_namespaces()))
        .unwrap_err();
    assert_eq!(
        error.message(),
        "Creating exported flag com.first.first in namespace com_android_networkstack is not allowed"
    );
}

#[test]
fn declaring_an_exported_platform_flag_of_another_beta_container_aborts() {
    let opts = options(FlagPermission::ReadWrite, true, false);
    let mut declarations = first_declaration("memory", "com.first", "system", false, true);
    declarations[0].content.flag[0].namespace = "com_android_tethering".to_string();
    assert!(declarations_abort("com.first", "system", &declarations, &Some(beta_namespaces()), opts));
    assert!(!declarations_abort("com.first", "system", &declarations, &None, opts));
    // A file refused before the flag is reached does not abort.
    let mut refused = first_declaration("memory", "com.other", "system", false, false);
    refused.append(&mut declarations);
    assert!(!declarations_abort("com.first", "system", &refused, &Some(beta_namespaces()), opts));
}

#[test]
fn test_modify_parsed_flags_based_on_mode_prod() {
    let parsed_flags = parse_test_flags();
    let p_parsed_flags =
        modify_parsed_flags_based_on_mode(parsed_flags.clone(), CodegenMode::Production).unwrap();
    assert_eq!(parsed_flags.len(), p_parsed_flags.len());
    for (i, item) in p_parsed_flags.iter().enumerate() {
        assert_eq!(format!("{:?}", parsed_flags[i]), format!("{:?}", item));
    }
}

#[test]
fn test_modify_parsed_flags_based_on_mode_exported() {
    let mut parsed_flags = parse_test_flags();
    let pf = parsed_flags.iter_mut().find(|pf| pf.is_exported).unwrap();
    pf.metadata.as_mut().unwrap().storage = FlagStorageBackend::DeviceConfig;

    let p_parsed_flags = modify_parsed_flags_based_on_mode(parsed_flags, CodegenMode::Exported).unwrap();
    assert_eq!(3, p_parsed_flags.len());
    for flag in p_parsed_flags.iter() {
        assert_eq!(FlagState::Disabled, flag.state);
        assert_eq!(FlagPermission::ReadWrite, flag.permission);
        assert_eq!(FlagStorageBackend::Aconfigd, storage(flag));
        assert!(!flag.is_fixed_read_only);
        assert!(flag.is_exported);
    }

    let mut parsed_flags = parse_test_flags();
    parsed_flags.retain(|pf| !pf.is_exported);
    let error = modify_parsed_flags_based_on_mode(parsed_flags, CodegenMode::Exported).unwrap_err();
    assert_eq!("exported library contains no exported flags", error.message());
}

#[test]
fn test_modify_parsed_flags_based_on_mode_forcereadonly() {
    let mut parsed_flags = parse_test_flags();
    let pf = parsed_flags.iter_mut().find(|pf| !pf.is_exported).unwrap();
    pf.metadata.as_mut().unwrap().storage = FlagStorageBackend::DeviceConfig;

    let p_parsed_flags =
        modify_parsed_flags_based_on_mode(parsed_flags, CodegenMode::ForceReadOnly).unwrap();
    assert_eq!(6, p_parsed_flags.len());
    for flag in p_parsed_flags.iter() {
        assert_eq!(FlagPermission::ReadOnly, flag.permission);
        assert_eq!(FlagStorageBackend::NoBackend, storage(flag));
        assert!(!flag.is_exported);
    }
}

#[test]
fn test_modify_parsed_flags_based_on_mode_force_read_only() {
    let parsed_flags = parse_test_flags();
    let p_parsed_flags =
        modify_parsed_flags_based_on_mode(parsed_flags, CodegenMode::ForceReadOnly).unwrap();
    assert_eq!(6, p_parsed_flags.len());
    for pf in p_parsed_flags {
        assert_eq!(FlagPermission::ReadOnly, pf.permission);
    }

    let mut parsed_flags = parse_test_flags();
    parsed_flags.retain(|pf| pf.is_exported);
    let error =
        modify_parsed_flags_based_on_mode(parsed_flags, CodegenMode::ForceReadOnly).unwrap_err();
    assert_eq!("force-read-only library contains no force-read-only flags", error.message());
}

const EXPECTED_IDS: [(&str, u16); 8] = [
    ("disabled_rw", 0),
    ("disabled_rw_exported", 1),
    ("disabled_rw_in_other_namespace", 2),
    ("enabled_fixed_ro", 3),
    ("enabled_fixed_ro_exported", 4),
    ("enabled_ro", 5),
    ("enabled_ro_exported", 6),
    ("enabled_rw", 7),
];

fn assert_expected_ids(flag_ids: &StringHashMap<u16>) {
    assert_eq!(EXPECTED_IDS.len(), flag_ids.len());
    for (name, id) in EXPECTED_IDS {
        assert_eq!(Some(&id), flag_ids.get(name));
    }
}

#[test]
fn test_assign_flag_ids() {
    let mut parsed_flags = parse_test_flags();
    let flag_ids = assign_flag_ids(PACKAGE, &parsed_flags).unwrap();
    assert_expected_ids(&flag_ids);

    let pf = parsed_flags.iter_mut().find(|pf| pf.name == "disabled_rw_in_other_namespace").unwrap();
    pf.metadata.as_mut().unwrap().storage = FlagStorageBackend::DeviceConfig;
    let flag_ids = assign_flag_ids(PACKAGE, &parsed_flags).unwrap();
    assert_expected_ids(&flag_ids);
}

#[test]
fn assign_flag_ids_refuses_other_packages() {
    let mut parsed_flags = parse_test_flags();
    parsed_flags[3].package = "com.other".to_string();
    let error = assign_flag_ids(PACKAGE, &parsed_flags).err().unwrap();
    assert_eq!("encountered a flag not in current package", error.message());
}

#[test]
fn test_create_device_config_ident() {
    assert_eq!(
        "com.foo.bar.some_flag",
        create_device_config_ident("com.foo.bar", "some_flag").unwrap()
    );
}

#[test]
fn create_device_config_ident_refuses_bad_identifiers() {
    assert_eq!("bad package", create_device_config_ident("com..bar", "some_flag").unwrap_err().message());
    assert_eq!("bad flag name", create_device_config_ident("com.foo", "Some-Flag").unwrap_err().message());
}

#[test]
fn test_get_flag_offset_in_storage_file() {
    let mut parsed_flags = parse_test_flags();
    let pf = parsed_flags.iter_mut().find(|pf| pf.name == "disabled_rw").unwrap();
    let mut flag_ids = StringHashMap::new();
    flag_ids.insert("disabled_rw".to_string(), 0_u16);

    assert_eq!(0_u16, get_flag_offset_in_storage_file(&flag_ids, pf).unwrap());

    pf.permission = FlagPermission::ReadOnly;
    let error = get_flag_offset_in_storage_file(&flag_ids, pf).unwrap_err();
    assert_eq!(
        error.message(),
        "flag com.android.aconfig.test.disabled_rw should not have an assigned flag id in new storage file"
    );

    pf.name = String::from("enabled_rw");
    assert_eq!(u16::MAX, get_flag_offset_in_storage_file(&flag_ids, pf).unwrap());

    pf.permission = FlagPermission::ReadWrite;
    let error = get_flag_offset_in_storage_file(&flag_ids, pf).unwrap_err();
    assert_eq!(
        error.message(),
        "flag com.android.aconfig.test.enabled_rw should have an assigned flag id in new storage file"
    );
}

fn included_names(flags: &[ParsedFlag]) -> Vec<String> {
    flags.iter().filter(|f| should_include_flag(f)).map(|f| f.name.clone()).collect()
}

#[test]
fn test_offset_fingerprint() {
    let parsed_flags = parse_test_flags();
    let expected_fingerprint: u64 = 11551379960324242360;

    let mut extracted_flags = extract_flag_names(&parsed_flags).unwrap();
    let hash_result = compute_flags_fingerprint(&mut extracted_flags);

    assert_eq!(hash_result, expected_fingerprint);
}

#[test]
fn test_offset_fingerprint_matches_from_package() {
    let parsed_flags = parse_test_flags();

    let mut extracted_flags = extract_flag_names(&parsed_flags).unwrap();
    let result_from_parsed_flags = compute_flags_fingerprint(&mut extracted_flags);

    let mut flag_names_vec = included_names(&parsed_flags);
    let result_from_names = compute_flags_fingerprint(&mut flag_names_vec);

    assert_eq!(result_from_parsed_flags, result_from_names);
}

#[test]
fn test_offset_fingerprint_different_packages_does_not_match() {
    let parsed_flags = parse_test_flags();
    let second = parse_flags(
        "com.android.aconfig.second_test",
        "system",
        vec![Input {
            source: "tests/test_second_package.aconfig".to_string(),
            content: FlagDeclarations {
                package: "com.android.aconfig.second_test".to_string(),
                container: "system".to_string(),
                flag: vec![declaration("testing_flag", "another_namespace", "A flag of another package", false, false, FlagPurpose::Unspecified)],
            },
        }],
        vec![],
        None,
        options(FlagPermission::ReadWrite, true, false),
    )
    .unwrap();

    let mut extracted_flags = extract_flag_names(&parsed_flags).unwrap();
    let result_from_parsed_flags = compute_flags_fingerprint(&mut extracted_flags);
    let mut second_extracted_flags = extract_flag_names(&second).unwrap();
    let second_result = compute_flags_fingerprint(&mut second_extracted_flags);

    assert_ne!(result_from_parsed_flags, second_result);
}

#[test]
fn fingerprint_ignores_order_and_sorts_names() {
    let mut a = vec!["b".to_string(), "a".to_string(), "c".to_string()];
    let mut b = vec!["c".to_string(), "b".to_string(), "a".to_string()];
    assert_eq!(compute_flags_fingerprint(&mut a), compute_flags_fingerprint(&mut b));
    assert_eq!(a, vec!["a".to_string(), "b".to_string(), "c".to_string()]);
    assert_eq!(a, b);
    let mut c = vec!["a".to_string(), "b".to_string()];
    let mut d = vec!["a".to_string(), "c".to_string()];
    assert_ne!(compute_flags_fingerprint(&mut c), compute_flags_fingerprint(&mut d));
}

#[test]
fn extract_flag_names_needs_one_package() {
    let mut parsed_flags = parse_test_flags();
    parsed_flags[0].package = "com.other".to_string();
    let error = extract_flag_names(&parsed_flags).unwrap_err();
    assert_eq!("No parsed flags, or the parsed flags use different packages.", error.message());
    assert!(extract_flag_names(&vec![]).is_err());
}

#[test]
fn cpp_context_numbers_read_write_flags() {
    let parsed_flags = parse_test_flags();
    let flag_ids = assign_flag_ids(PACKAGE, &parsed_flags).unwrap();
    assert!(!cpp_codegen_aborts(PACKAGE, &parsed_flags, &flag_ids));
    assert!(cpp_codegen_aborts("com.Bad", &parsed_flags, &flag_ids));
    let context = create_cpp_lib(parsed_flags, CodegenMode::Production).unwrap();
    assert_eq!("com_android_aconfig_test", context.header);
    assert_eq!("COM_ANDROID_ACONFIG_TEST", context.package_macro);
    assert_eq!("com::android::aconfig::test", context.cpp_namespace);
    assert_eq!(PACKAGE, context.package);
    assert_eq!("system", context.container);
    assert!(context.has_fixed_read_only);
    assert!(context.readwrite);
    assert_eq!(4, context.readwrite_count);
    assert!(!context.is_test_mode);
    assert!(!context.use_package_fingerprint);
    assert_eq!(9, context.class_elements.len());
    let rw: Vec<(String, i32)> = context
        .class_elements
        .iter()
        .map(|e| (e.flag_name.clone(), e.readwrite_idx))
        .collect();
    assert_eq!(
        rw,
        vec![
            ("disabled_ro".to_string(), -1),
            ("disabled_rw".to_string(), 0),
            ("disabled_rw_exported".to_string(), 1),
            ("disabled_rw_in_other_namespace".to_string(), 2),
            ("enabled_fixed_ro".to_string(), -1),
            ("enabled_fixed_ro_exported".to_string(), -1),
            ("enabled_ro".to_string(), -1),
            ("enabled_ro_exported".to_string(), -1),
            ("enabled_rw".to_string(), 3),
        ]
    );
    let enabled_rw = &context.class_elements[8];
    assert_eq!("ENABLED_RW", enabled_rw.flag_macro);
    assert_eq!("true", enabled_rw.default_value);
    assert_eq!(7, enabled_rw.flag_offset);
    assert_eq!("aconfig_test", enabled_rw.device_config_namespace);
    assert_eq!("com.android.aconfig.test.enabled_rw", enabled_rw.device_config_flag);
    assert_eq!(u16::MAX, context.class_elements[0].flag_offset);
    assert_eq!("false", context.class_elements[0].default_value);
}

#[test]
fn cpp_context_in_test_mode_with_fingerprint() {
    let parsed_flags = parse_test_flags();
    let flag_ids = assign_flag_ids(PACKAGE, &parsed_flags).unwrap();
    let context = generate_cpp_code(PACKAGE, parsed_flags, CodegenMode::Test, flag_ids, Some(42)).unwrap();
    assert!(context.is_test_mode);
    assert!(context.use_package_fingerprint);
    assert_eq!(42, context.package_fingerprint);
}

#[test]
fn cpp_refuses_exported_mode_and_device_config_storage() {
    let parsed_flags = parse_test_flags();
    let error = create_cpp_lib(parsed_flags, CodegenMode::Exported).err().unwrap();
    assert_eq!("Exported mode for generated c/c++ flag library is disabled", error.message());

    let mut parsed_flags = parse_test_flags();
    parsed_flags[1].metadata.as_mut().unwrap().storage = FlagStorageBackend::DeviceConfig;
    let error = create_cpp_lib(parsed_flags, CodegenMode::Production).err().unwrap();
    assert_eq!(
        "device config storage backend cannot be used in native codegen for flag com.android.aconfig.test.disabled_rw",
        error.message()
    );
}

#[test]
fn cpp_file_specs_name_header_and_source() {
    let files = cpp_file_specs("com_android_aconfig_test", "H".to_string(), "S".to_string());
    assert_eq!(2, files.len());
    assert_eq!("com_android_aconfig_test.h", files[0].name);
    assert_eq!("include", files[0].dir);
    assert_eq!("H", files[0].template);
    assert_eq!("com_android_aconfig_test.cc", files[1].name);
    assert_eq!("", files[1].dir);
    assert_eq!("S", files[1].template);
}

#[test]
fn rust_and_java_lib_inputs() {
    let error = create_rust_lib(parse_test_flags(), CodegenMode::Exported).err().unwrap();
    assert_eq!("Exported mode for generated rust flag library is disabled", error.message());

    let inputs = create_rust_lib(parse_test_flags(), CodegenMode::Production).ok().unwrap();
    assert_eq!(PACKAGE, inputs.package);
    assert_eq!(9, inputs.parsed_flags.len());
    assert!(inputs.package_fingerprint.is_none());
    assert_expected_ids(&inputs.flag_ids);

    let parsed_flags = parse_test_flags();
    let mut names = extract_flag_names(&parsed_flags).unwrap();
    let fingerprint = compute_flags_fingerprint(&mut names);
    let inputs = create_java_lib(parsed_flags, CodegenMode::Exported, true).ok().unwrap();
    assert_eq!(3, inputs.parsed_flags.len());
    assert_eq!(fingerprint, inputs.package_fingerprint);
    assert!(inputs.single_exported_file);
    assert_eq!(Some(&0), inputs.flag_ids.get("disabled_rw_exported"));
}

#[test]
fn parse_flags_refuses_a_flag_declared_twice() {
    let mut declarations = first_declaration("memory", "com.first", "test", false, false);
    let again = declarations[0].content.flag[0].clone();
    declarations[0].content.flag.push(again);
    let error = parse_flags(
        "com.first",
        "test",
        declarations,
        vec![],
        None,
        options(FlagPermission::ReadWrite, true, false),
    )
    .unwrap_err();
    assert_eq!("failed to declare flag first from memory: flag already declared", error.message());
}

#[test]
fn values_of_unknown_flags_are_skipped() {
    let parsed_flags = parse_flags(
        "com.first",
        "test",
        first_declaration("memory", "com.first", "test", false, false),
        first_value("com.other", FlagState::Enabled, FlagPermission::ReadOnly),
        None,
        options(FlagPermission::ReadWrite, true, false),
    )
    .unwrap();
    assert_eq!(FlagState::Disabled, parsed_flags[0].state);
    assert_eq!(1, parsed_flags[0].trace.len());
}

#[test]
fn assigned_ids_are_the_storage_offsets() {
    let parsed_flags = parse_test_flags();
    let flag_ids = assign_flag_ids(PACKAGE, &parsed_flags).unwrap();
    let mut managed_before: u16 = 0;
    for pf in parsed_flags.iter() {
        let offset = get_flag_offset_in_storage_file(&flag_ids, pf).unwrap();
        if should_include_flag(pf) {
            assert_eq!(managed_before, offset);
            managed_before += 1;
        } else {
            assert_eq!(u16::MAX, offset);
        }
    }
    assert_eq!(8, managed_before);
}

#[test]
fn codegen_aborts_only_where_it_reaches_a_bad_identifier() {
    let mut parsed_flags = parse_test_flags();
    let flag_ids = assign_flag_ids(PACKAGE, &parsed_flags).unwrap();
    // disabled_ro is not managed by aconfigd, so its offset is found.
    parsed_flags[0].name = "Bad_Name".to_string();
    assert!(cpp_codegen_aborts(PACKAGE, &parsed_flags, &flag_ids));
    // A flag stored in device config is refused before its name is used.
    parsed_flags[0].metadata.as_mut().unwrap().storage = FlagStorageBackend::DeviceConfig;
    assert!(!cpp_codegen_aborts(PACKAGE, &parsed_flags, &flag_ids));
}

#[test]
fn parsed_flags_follow_the_declarations() {
    let declared: Vec<String> = test_declarations().content.flag.iter().map(|d| d.name.clone()).collect();
    let parsed: Vec<String> = parse_test_flags().iter().map(|f| f.name.clone()).collect();
    assert_eq!(declared, parsed);
}

#[test]
fn parsed_flags_come_out_sorted_by_name() {
    let p = FlagPurpose::Unspecified;
    let declarations = Input {
        source: "tests/order.aconfig".to_string(),
        content: FlagDeclarations {
            package: PACKAGE.to_string(),
            container: "system".to_string(),
            flag: vec![
                declaration("b", "ns", "second", false, false, p),
                declaration("a", "ns", "first", false, false, p),
            ],
        },
    };
    let parsed = parse_flags(
        PACKAGE,
        "system",
        vec![declarations],
        vec![],
        None,
        options(FlagPermission::ReadOnly, true, false),
    )
    .unwrap();
    let names: Vec<String> = parsed.iter().map(|f| f.name.clone()).collect();
    assert_eq!(names, vec!["a".to_string(), "b".to_string()]);
}

fn cpp_context_for(mode: CodegenMode, package_fingerprint: Option<u64>) -> build_tools::cpp::Context {
    let modified = modify_parsed_flags_based_on_mode(parse_test_flags(), mode).unwrap();
    let flag_ids = assign_flag_ids(PACKAGE, &modified).unwrap();
    generate_cpp_code(PACKAGE, modified, mode, flag_ids, package_fingerprint).unwrap()
}

fn element_summary(context: &build_tools::cpp::Context) -> Vec<(String, i32, String)> {
    context
        .class_elements
        .iter()
        .map(|e| (e.flag_name.clone(), e.readwrite_idx, e.default_value.clone()))
        .collect()
}

fn all_test_flag_elements() -> Vec<(String, i32, String)> {
    vec![
        ("disabled_ro".to_string(), -1, "false".to_string()),
        ("disabled_rw".to_string(), 0, "false".to_string()),
        ("disabled_rw_exported".to_string(), 1, "false".to_string()),
        ("disabled_rw_in_other_namespace".to_string(), 2, "false".to_string()),
        ("enabled_fixed_ro".to_string(), -1, "true".to_string()),
        ("enabled_fixed_ro_exported".to_string(), -1, "true".to_string()),
        ("enabled_ro".to_string(), -1, "true".to_string()),
        ("enabled_ro_exported".to_string(), -1, "true".to_string()),
        ("enabled_rw".to_string(), 3, "true".to_string()),
    ]
}

#[test]
fn test_generate_cpp_code_for_prod() {
    let context = cpp_context_for(CodegenMode::Production, None);
    assert_eq!("com_android_aconfig_test", context.header);
    assert_eq!("COM_ANDROID_ACONFIG_TEST", context.package_macro);
    assert_eq!("com::android::aconfig::test", context.cpp_namespace);
    assert!(!context.is_test_mode);
    assert!(context.readwrite);
    assert_eq!(4, context.readwrite_count);
    assert!(context.has_fixed_read_only);
    assert!(!context.use_package_fingerprint);
    assert_eq!(element_summary(&context), all_test_flag_elements());
    assert_eq!("ENABLED_FIXED_RO", context.class_elements[4].flag_macro);
}

#[test]
fn test_generate_cpp_code_for_prod_with_fingerprint() {
    let context = cpp_context_for(CodegenMode::Production, Some(5801144784618221668));
    assert!(context.use_package_fingerprint);
    assert_eq!(5801144784618221668, context.package_fingerprint);
    assert_eq!(4, context.readwrite_count);
    assert_eq!(element_summary(&context), all_test_flag_elements());
}

#[test]
fn test_generate_cpp_code_for_test() {
    let context = cpp_context_for(CodegenMode::Test, None);
    assert!(context.is_test_mode);
    assert!(context.readwrite);
    assert_eq!(4, context.readwrite_count);
    assert_eq!(element_summary(&context), all_test_flag_elements());
}

#[test]
fn test_generate_cpp_code_for_force_read_only() {
    let context = cpp_context_for(CodegenMode::ForceReadOnly, None);
    assert!(!context.is_test_mode);
    assert!(!context.readwrite);
    assert_eq!(0, context.readwrite_count);
    assert!(context.has_fixed_read_only);
    assert_eq!(
        element_summary(&context),
        vec![
            ("disabled_ro".to_string(), -1, "false".to_string()),
            ("disabled_rw".to_string(), -1, "false".to_string()),
            ("disabled_rw_in_other_namespace".to_string(), -1, "false".to_string()),
            ("enabled_fixed_ro".to_string(), -1, "true".to_string()),
            ("enabled_ro".to_string(), -1, "true".to_string()),
            ("enabled_rw".to_string(), -1, "true".to_string()),
        ]
    );
}
