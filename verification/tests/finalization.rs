use build_tools::build_flags::{
    flags_we_care_about, is_flag_we_care_about, FlagArtifact, ReleaseConfigArtifact,
    ReleaseConfigs, ReleaseConfigsArtifact, ReleaseFlagValue,
};

fn text(name: &str, value: &str) -> FlagArtifact {
    FlagArtifact { name: name.to_string(), value: ReleaseFlagValue::StringValue(value.to_string()) }
}

fn boolean(name: &str, value: bool) -> FlagArtifact {
    FlagArtifact { name: name.to_string(), value: ReleaseFlagValue::BoolValue(value) }
}

fn unset(name: &str) -> FlagArtifact {
    FlagArtifact { name: name.to_string(), value: ReleaseFlagValue::Unset }
}

fn config(
    name: &str,
    other_names: &[&str],
    codename: &str,
    sdk: &str,
    sdk_full: Option<&str>,
    exportable_stubs: bool,
) -> ReleaseConfigArtifact {
    let mut flags = vec![
        text("RELEASE_PLATFORM_SDK_VERSION", sdk),
        match sdk_full {
            Some(v) => text("RELEASE_PLATFORM_SDK_VERSION_FULL", v),
            None => unset("RELEASE_PLATFORM_SDK_VERSION_FULL"),
        },
        text("RELEASE_PLATFORM_VERSION", "16"),
        text("RELEASE_PLATFORM_VERSION_CODENAME", codename),
        boolean("RELEASE_HIDDEN_API_EXPORTABLE_STUBS", exportable_stubs),
    ];
    flags.push(text("RELEASE_SOMETHING_ELSE", "ignored"));
    ReleaseConfigArtifact {
        name: name.to_string(),
        other_names: other_names.iter().map(|s| s.to_string()).collect(),
        flags,
    }
}

fn release_configs() -> ReleaseConfigs {
    let artifact = ReleaseConfigsArtifact {
        release_config: config("trunk_staging", &[], "Baklava", "36", Some("36.1"), false),
        other_release_configs: vec![
            config("trunk", &[], "Baklava", "36", Some("36.1"), false),
            config("bp2a", &["next"], "Baklava", "36", Some("36.1"), true),
            config("zp11", &["canary"], "CANARY", "36", None, false),
        ],
    };
    ReleaseConfigs::init(&artifact)
}

fn flag(rc: &ReleaseConfigs, release_config: &str, flag: &str) -> String {
    rc.flags.get(release_config).unwrap().get(flag).unwrap().clone()
}

fn alias(rc: &ReleaseConfigs, name: &str) -> String {
    rc.aliases.get(name).unwrap().clone()
}

fn sdk_version(rc: &ReleaseConfigs, release_config: &str) -> f32 {
    // use SDK_INT_FULL if set, otherwise fall back to SDK_INT
    let s = flag(rc, release_config, "RELEASE_PLATFORM_SDK_VERSION_FULL");
    if !s.is_empty() {
        s.parse::<f32>().unwrap_or_else(|_| {
            panic!("failed to parse RELEASE_PLATFORM_SDK_VERSION_FULL for {release_config} ({s}) as f32")
        })
    } else {
        let s = flag(rc, release_config, "RELEASE_PLATFORM_SDK_VERSION");
        s.parse::<f32>().unwrap_or_else(|_| {
            panic!("failed to parse RELEASE_PLATFORM_SDK_VERSION for {release_config} ({s}) as f32")
        })
    }
}

#[test]
fn test_build_flags_in_trunk_and_trunk_staging_are_equal() {
    let rc = release_configs();
    for flag_name in flags_we_care_about() {
        assert_eq!(
            flag(&rc, "trunk", flag_name),
            flag(&rc, "trunk_staging", flag_name),
            "flag {flag_name} differenct across trunk and trunk_staging",
        );
    }
}

#[test]
fn test_trunk_is_never_rel() {
    let rc = release_configs();
    assert_ne!(flag(&rc, "trunk", "RELEASE_PLATFORM_VERSION_CODENAME"), "REL");
}

#[test]
fn test_version_parity_if_next_is_not_rel() {
    let rc = release_configs();
    let next = alias(&rc, "next");
    if flag(&rc, &next, "RELEASE_PLATFORM_VERSION_CODENAME") != "REL" {
        assert_eq!(
            flag(&rc, &next, "RELEASE_PLATFORM_SDK_VERSION_FULL"),
            flag(&rc, "trunk", "RELEASE_PLATFORM_SDK_VERSION_FULL")
        );
    } else {
        assert!(sdk_version(&rc, "trunk") <= sdk_version(&rc, &next));
    }
}

#[test]
fn test_version_and_version_full_parity() {
    let rc = release_configs();
    for release_config in rc.names() {
        let version_full = flag(&rc, &release_config, "RELEASE_PLATFORM_SDK_VERSION_FULL");
        if version_full.is_empty() {
            continue;
        }
        assert!(
            version_full.parse::<f32>().is_ok(),
            "failed to convert value ({version_full}) of RELEASE_PLATFORM_SDK_VERSION_FULL for {release_config} to f32"
        );
        let (integer_part, _) = version_full.split_once(".").unwrap_or_else(|| {
            panic!("value of RELEASE_PLATFORM_SDK_VERSION_FULL ({version_full}) for {release_config} doesn't have expected format")
        });
        assert_eq!(integer_part, flag(&rc, &release_config, "RELEASE_PLATFORM_SDK_VERSION"));
    }
}

#[test]
fn test_release_hidden_api_exportable_stubs_is_enabled_in_next() {
    let rc = release_configs();
    let next = alias(&rc, "next");
    let value = flag(&rc, &next, "RELEASE_HIDDEN_API_EXPORTABLE_STUBS");
    assert_eq!(
        value, "true",
        "expected RELEASE_HIDDEN_API_EXPORTABLE_STUBS to be 'true' in next ({next}) but was '{value}'"
    );
}

#[test]
fn test_only_canary_release_config_has_codename_canary() {
    let rc = release_configs();
    let canary = alias(&rc, "canary");
    let value = flag(&rc, &canary, "RELEASE_PLATFORM_VERSION_CODENAME");
    assert_eq!(value, "CANARY");

    for release_config in rc.names().iter().filter(|key| **key != canary) {
        let value = flag(&rc, release_config, "RELEASE_PLATFORM_VERSION_CODENAME");
        assert_ne!(value, "CANARY");
    }
}

#[test]
fn only_the_flags_that_finalization_checks_are_kept() {
    let rc = release_configs();
    let trunk = rc.flags.get("trunk").unwrap();
    assert_eq!(5, trunk.len());
    assert!(trunk.get("RELEASE_SOMETHING_ELSE").is_none());
    assert_eq!("false", flag(&rc, "trunk", "RELEASE_HIDDEN_API_EXPORTABLE_STUBS"));
    assert_eq!("", flag(&rc, "zp11", "RELEASE_PLATFORM_SDK_VERSION_FULL"));
    assert!(is_flag_we_care_about("RELEASE_PLATFORM_VERSION"));
    assert!(!is_flag_we_care_about("RELEASE_PLATFORM_VERSION_"));
    assert_eq!(5, flags_we_care_about().len());
}

#[test]
fn every_release_config_and_alias_is_known() {
    let rc = release_configs();
    let mut names = rc.names();
    names.sort();
    assert_eq!(names, vec!["bp2a", "trunk", "trunk_staging", "zp11"]);
    for a in ["next", "canary"] {
        assert!(rc.flags.get(&alias(&rc, a)).is_some());
    }
    assert!(rc.aliases.get("trunk").is_none());
}

#[test]
fn a_later_release_config_of_the_same_name_wins() {
    let artifact = ReleaseConfigsArtifact {
        release_config: config("trunk", &["main"], "Baklava", "36", Some("36.0"), false),
        other_release_configs: vec![
            config("trunk", &[], "Baklava", "37", Some("37.0"), false),
            config("other", &["main"], "Baklava", "36", None, false),
        ],
    };
    let rc = ReleaseConfigs::init(&artifact);
    assert_eq!("37", flag(&rc, "trunk", "RELEASE_PLATFORM_SDK_VERSION"));
    assert_eq!("other", alias(&rc, "main"));
    assert_eq!(2, rc.names().len());
}
