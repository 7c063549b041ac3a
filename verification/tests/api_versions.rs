use build_tools::api_versions::{
    no_adservices_ext_crossover, no_deprecated_after_last_known, no_deprecated_at_birth,
    sdks_is_well_formed, validate_sdk_int, validate_sdk_string, Api, Class, Field, Method, Sdk,
};
use build_tools::StringHashSet;

fn s(v: &str) -> String {
    v.to_string()
}

fn opt(v: Option<&str>) -> Option<String> {
    v.map(|x| x.to_string())
}

fn method(name: &str, since: Option<&str>, deprecated: Option<&str>, sdks: Option<&str>) -> Method {
    Method { name: s(name), since: opt(since), deprecated: opt(deprecated), sdks: opt(sdks) }
}

fn field(name: &str, since: Option<&str>, deprecated: Option<&str>, sdks: Option<&str>) -> Field {
    Field { name: s(name), since: opt(since), deprecated: opt(deprecated), sdks: opt(sdks) }
}

fn class(
    name: &str,
    since: &str,
    deprecated: Option<&str>,
    sdks: Option<&str>,
    methods: Vec<Method>,
    fields: Vec<Field>,
) -> Class {
    Class {
        name: s(name),
        since: s(since),
        deprecated: opt(deprecated),
        sdks: opt(sdks),
        modelue_text: None,
        extends: vec![],
        methods,
        fields,
        implements: vec![],
    }
}

fn api(classes: Vec<Class>) -> Api {
    Api {
        version: s("3"),
        sdks: vec![Sdk { id: s("30"), shortname: s("R-ext"), name: s("R Extensions"), reference: s("android/os/Build$VERSION_CODES$R") }],
        classes,
    }
}

#[test]
fn sdk_versions_in_range_pass() {
    assert_eq!(None, validate_sdk_int(&s("36")));
    assert_eq!(None, validate_sdk_int(&s("36.1")));
    assert_eq!(None, validate_sdk_int(&s("37.2")));
    assert_eq!(None, validate_sdk_int(&s("+5")));
}

#[test]
fn sdk_versions_past_the_newest_are_reported() {
    assert_eq!(
        Some(s("Bad sdk version: \"38\": Major version to larger.")),
        validate_sdk_int(&s("38"))
    );
    assert_eq!(
        Some(s("Bad sdk version: \"37\": Minor version to larger.")),
        validate_sdk_int(&s("37"))
    );
    assert_eq!(
        Some(s("Bad sdk version: \"37.1\": Minor version to larger.")),
        validate_sdk_int(&s("37.1"))
    );
}

#[test]
fn unparsable_sdk_versions_are_reported() {
    assert_eq!(
        Some(s("Bad sdk version: \"R\": Failed to parse major version")),
        validate_sdk_int(&s("R"))
    );
    assert_eq!(
        Some(s("Bad sdk version: \"\": Failed to parse major version")),
        validate_sdk_int(&s(""))
    );
    assert_eq!(
        Some(s("Bad sdk version: \"36.x\": Failed to parse minor version")),
        validate_sdk_int(&s("36.x"))
    );
    assert_eq!(
        Some(s("Bad sdk version: \"36.1.2\": Failed to parse minor version")),
        validate_sdk_int(&s("36.1.2"))
    );
    assert_eq!(
        Some(s("Bad sdk version: \"4294967296\": Failed to parse major version")),
        validate_sdk_int(&s("4294967296"))
    );
    assert_eq!(
        Some(s("Bad sdk version: \"-1\": Failed to parse major version")),
        validate_sdk_int(&s("-1"))
    );
}

#[test]
fn sdk_strings_with_adservices_alone_pass() {
    assert_eq!("", validate_sdk_string(&s("0:34,1000000:4")).unwrap());
    assert_eq!("", validate_sdk_string(&s("1000000:4")).unwrap());
    assert_eq!("", validate_sdk_string(&s("30:2,31:2")).unwrap());
}

#[test]
fn sdk_strings_with_adservices_and_another_extension_fail() {
    assert_eq!(
        "Found extra extension value in addition to adservices: 0:34,30:5,1000000:4",
        validate_sdk_string(&s("0:34,30:5,1000000:4")).unwrap_err()
    );
}

#[test]
fn malformed_sdk_strings_are_recognised() {
    assert!(sdks_is_well_formed(&s("0:34,1000000:4")));
    assert!(!sdks_is_well_formed(&s("0:34,1000000")));
    assert!(!sdks_is_well_formed(&s("0:34:1")));
    assert!(!sdks_is_well_formed(&s("0:34,0:35")));
}

fn sample_api() -> Api {
    api(vec![
        class(
            "android/app/Activity",
            "1",
            Some("1"),
            Some("0:1,1000000:1,31:1"),
            vec![
                method("finish()V", None, Some("1"), None),
                method("start()V", Some("2"), Some("3"), None),
                method("stop()V", Some("3"), Some("3"), Some("0:3,1000000:2")),
            ],
            vec![field("RESULT_OK", Some("5"), Some("5"), Some("30:1,1000000:2"))],
        ),
        class("android/os/Build", "1", None, None, vec![], vec![]),
    ])
}

#[test]
fn deprecated_at_birth_is_reported_unless_allowed() {
    let api = sample_api();
    let allowlist = StringHashSet::new();
    assert_eq!(
        no_deprecated_at_birth(&api, &allowlist),
        vec![
            s("android/app/Activity 1"),
            s("android/app/Activity#RESULT_OK 5"),
            s("android/app/Activity#finish()V 1"),
            s("android/app/Activity#stop()V 3"),
        ]
    );
    let mut allowlist = StringHashSet::new();
    allowlist.insert(s("android/app/Activity#finish()V 1"));
    assert_eq!(no_deprecated_at_birth(&api, &allowlist).len(), 3);
}

#[test]
fn allowing_the_reports_silences_the_check() {
    let api = sample_api();
    let mut allowlist = StringHashSet::new();
    for p in no_deprecated_at_birth(&api, &StringHashSet::new()) {
        allowlist.insert(p);
    }
    assert!(no_deprecated_at_birth(&api, &allowlist).is_empty());
}

#[test]
fn adservices_crossover_is_reported_per_member() {
    let api = sample_api();
    assert_eq!(
        no_adservices_ext_crossover(&api),
        vec![
            s("Found extra extension value in addition to adservices: 0:1,1000000:1,31:1"),
            s("Found extra extension value in addition to adservices: 30:1,1000000:2"),
        ]
    );
}

#[test]
fn no_deprecated_after_last_known_reports_nothing() {
    let api = api(vec![class("A", "99", Some("x"), None, vec![], vec![])]);
    assert!(no_deprecated_after_last_known(&api).is_empty());
}
