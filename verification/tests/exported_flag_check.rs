use build_tools::exported_flags::{
    api_filter_list, check_all_exported_flags, extract_flagged_api_flags, filter_api_flags, flags_of_captures,
    get_exported_flags, read_flag_from_binary, validate_exported_flags, FlagSet,
};
use build_tools::flags::{FlagMetadata, FlagPermission, FlagPurpose, FlagState, FlagStorageBackend, ParsedFlag};
use build_tools::sort::sort_parsed_flags;

const API_SIGNATURE_FILE: &str = r#"// Signature format: 2.0
package record_finalized_flags.test {

  @FlaggedApi("record_finalized_flags.test.foo") public final class Foo {
    ctor @FlaggedApi("record_finalized_flags.test.foo") public Foo();
    method @FlaggedApi("this.flag.is.not.used") public void bar();
  }

}
"#;

const FINALIZED_FLAGS_FILE: &str = "record_finalized_flags.test.bar\nrecord_finalized_flags.test.baz\n";

fn set_of(names: &[&str]) -> FlagSet {
    let mut s = FlagSet::new();
    for n in names {
        s.insert(n.to_string());
    }
    s
}

fn sorted_names(s: &FlagSet) -> Vec<String> {
    let mut v = s.names();
    v.sort();
    v
}

fn sorted(names: &[&str]) -> Vec<String> {
    let mut v: Vec<String> = names.iter().map(|s| s.to_string()).collect();
    v.sort();
    v
}

fn flag(name: &str, state: FlagState, permission: FlagPermission, is_exported: bool) -> ParsedFlag {
    ParsedFlag {
        package: "record_finalized_flags.test".to_string(),
        name: name.to_string(),
        namespace: "test".to_string(),
        description: "A flag".to_string(),
        bug: vec![],
        state,
        permission,
        trace: vec![],
        is_fixed_read_only: false,
        is_exported,
        container: "system".to_string(),
        metadata: Some(FlagMetadata { purpose: FlagPurpose::Unspecified, storage: FlagStorageBackend::Aconfigd }),
    }
}

fn test_flags() -> Vec<ParsedFlag> {
    vec![
        flag("bar", FlagState::Enabled, FlagPermission::ReadWrite, true),
        flag("baz", FlagState::Enabled, FlagPermission::ReadWrite, false),
        flag("boo", FlagState::Disabled, FlagPermission::ReadWrite, true),
        flag("foo", FlagState::Enabled, FlagPermission::ReadWrite, true),
        flag("not_enabled", FlagState::Disabled, FlagPermission::ReadWrite, true),
        flag("not_exported", FlagState::Enabled, FlagPermission::ReadOnly, false),
    ]
}

#[test]
fn test_extract_flagged_api_flags() {
    let flags = extract_flagged_api_flags(API_SIGNATURE_FILE).unwrap();
    assert_eq!(
        sorted_names(&flags),
        sorted(&["record_finalized_flags.test.foo", "this.flag.is.not.used"])
    );
}

#[test]
fn test_read_finalized_flags() {
    let flags = read_flag_from_binary(FINALIZED_FLAGS_FILE);
    assert_eq!(
        sorted_names(&flags),
        sorted(&["record_finalized_flags.test.bar", "record_finalized_flags.test.baz"])
    );
}

#[test]
fn test_get_exported_flags_from_binary_proto() {
    let flags = get_exported_flags(&test_flags());
    assert_eq!(
        sorted_names(&flags),
        sorted(&[
            "record_finalized_flags.test.foo",
            "record_finalized_flags.test.not_enabled",
            "record_finalized_flags.test.bar",
            "record_finalized_flags.test.boo",
        ])
    );
}

fn exported_fully_qualified_names(flags: &[ParsedFlag]) -> Vec<String> {
    let mut v: Vec<String> =
        flags.iter().filter(|f| f.is_exported).map(|f| f.fully_qualified_name()).collect();
    v.sort();
    v
}

#[test]
fn test_filter_api_flags() {
    let allow_flag_file = r#"
        record_finalized_flags.test.boo
        record_finalized_flags.test.not_enabled
        "#;
    let allow_flag_set = read_flag_from_binary(allow_flag_file);
    let flags = filter_api_flags(test_flags(), &allow_flag_set);
    assert_eq!(2, flags.len());
    assert_eq!(
        exported_fully_qualified_names(&flags),
        sorted(&["record_finalized_flags.test.foo", "record_finalized_flags.test.bar"])
    );

    let allow_flag_file = r#"
        record_finalized_flags.test.foo
        record_finalized_flags.test.boo
        record_finalized_flags.test.not_enabled
        "#;
    let allow_flag_set = read_flag_from_binary(allow_flag_file);
    let flags = filter_api_flags(test_flags(), &allow_flag_set);
    assert_eq!(1, flags.len());
    assert_eq!(exported_fully_qualified_names(&flags), sorted(&["record_finalized_flags.test.bar"]));
}

#[test]
fn test_read_flag_from_binary() {
    let test_binary_file = r#"
        // This is a comment
        //record_finalized_flags.test.not_enabled
        record_finalized_flags.test.bar

        record_finalized_flags.test.baz
        "#;
    let ret = read_flag_from_binary(test_binary_file);
    assert_eq!(2, ret.len());
    assert_eq!(
        sorted_names(&ret),
        sorted(&["record_finalized_flags.test.bar", "record_finalized_flags.test.baz"])
    );
}

#[test]
fn test() {
    let api_signature_files = vec![API_SIGNATURE_FILE.to_string()];
    let non_api_flags = "record_finalized_flags.test.boo";
    let allow_flag_package = "";

    let exported_flags = validate_exported_flags(
        &test_flags(),
        &api_signature_files,
        FINALIZED_FLAGS_FILE,
        non_api_flags,
        allow_flag_package,
    )
    .unwrap();

    assert_eq!(1, exported_flags.len());
    assert_eq!("record_finalized_flags.test.not_enabled", exported_flags[0]);
}

#[test]
fn allowed_packages_account_for_their_flags() {
    let exported = validate_exported_flags(
        &test_flags(),
        &vec![],
        "",
        "",
        "record_finalized_flags.test\n",
    )
    .unwrap();
    assert!(exported.is_empty());
    let exported = validate_exported_flags(&test_flags(), &vec![], "", "", "record_finalized_flags\n").unwrap();
    assert_eq!(4, exported.len());
}

#[test]
fn check_keeps_the_order_of_all_flags() {
    let all = set_of(&["b.x", "a.y", "nodot", "c.z"]);
    let none = FlagSet::new();
    let used = set_of(&["a.y"]);
    let packages = set_of(&["c"]);
    let r = check_all_exported_flags(&used, &all, &none, &none, &packages);
    assert_eq!(r, vec!["b.x".to_string(), "nodot".to_string()]);
}

#[test]
fn flag_sets_keep_first_insertion_and_remove() {
    let mut s = FlagSet::new();
    assert!(s.insert("x".to_string()));
    assert!(s.insert("y".to_string()));
    assert!(!s.insert("x".to_string()));
    assert_eq!(s.names(), vec!["x".to_string(), "y".to_string()]);
    assert!(s.contains("y"));
    s.remove("x");
    assert!(!s.contains("x"));
    assert_eq!(s.names(), vec!["y".to_string()]);
    s.extend(vec!["z".to_string(), "y".to_string()]);
    assert_eq!(s.names(), vec!["y".to_string(), "z".to_string()]);
}

#[test]
fn captures_without_a_group_are_skipped() {
    let s = flags_of_captures(vec![Some("a".to_string()), None, Some("a".to_string()), Some("b".to_string())]);
    assert_eq!(s.names(), vec!["a".to_string(), "b".to_string()]);
}

#[test]
fn annotations_spanning_lines_are_found() {
    let text = "@FlaggedApi(\"first.flag\") x\n@FlaggedApi(\n\"second\") y @FlaggedApi(\"multi\nline\")";
    let flags = extract_flagged_api_flags(text).unwrap();
    assert_eq!(sorted_names(&flags), sorted(&["first.flag", "multi\nline"]));
}

#[test]
fn api_flags_come_out_sorted_by_name() {
    let mut flags = test_flags();
    flags.reverse();
    let kept = filter_api_flags(flags, &read_flag_from_binary(""));
    let names: Vec<String> = kept.iter().map(|f| f.name.clone()).collect();
    assert_eq!(names, vec!["bar".to_string(), "boo".to_string(), "foo".to_string(), "not_enabled".to_string()]);
}

#[test]
fn sorting_keeps_flags_of_equal_names_in_order() {
    let mut second = flag("foo", FlagState::Disabled, FlagPermission::ReadOnly, false);
    second.description = "second".to_string();
    let mut flags = vec![
        flag("foo", FlagState::Enabled, FlagPermission::ReadWrite, true),
        flag("bar", FlagState::Enabled, FlagPermission::ReadWrite, true),
        second,
    ];
    sort_parsed_flags(&mut flags);
    let names: Vec<String> = flags.iter().map(|f| f.name.clone()).collect();
    assert_eq!(names, vec!["bar".to_string(), "foo".to_string(), "foo".to_string()]);
    assert_eq!("A flag", flags[1].description);
    assert_eq!("second", flags[2].description);
}

#[test]
fn the_skip_list_is_taken_out_of_the_filter_list() {
    let non_api = read_flag_from_binary("a.b.one\na.b.two\na.b.three\n");
    let skip = read_flag_from_binary("a.b.two\nx.y.other\n");
    let list = api_filter_list(&non_api, &skip);
    assert_eq!(list.names(), vec!["a.b.one".to_string(), "a.b.three".to_string()]);
}
