use bobpy::config::{BobpyConfig, InvalidConfig, Requirement, RequirementLockMap};
use bobpy::source::Lookup;
use std::path::PathBuf;

#[test]
fn test_default_bobpy_config() {
    let contents = "";
    let bobpy_config = BobpyConfig::from_str(contents).unwrap();
    assert_eq!(
        PathBuf::from(&bobpy_config.project.services_path),
        PathBuf::from("services")
    );
    assert_eq!(
        PathBuf::from(&bobpy_config.project.libraries_path),
        PathBuf::from("libraries")
    );
    assert_eq!(bobpy_config.requirement_lock.len(), 0);
}

#[test]
fn test_bobpy_settings_basic_overwrite() {
    let contents = r#"
            [project]
            services_path = "my_services"
            libraries_path = "my_libraries"

            [requirement_lock]
            "my_package" = "1.0.0"
            "my_other_package" = "2.0.0"
            "#;
    let bobpy_config = BobpyConfig::from_str(contents).unwrap();
    assert_eq!(
        PathBuf::from(&bobpy_config.project.services_path),
        PathBuf::from("my_services")
    );
    assert_eq!(
        PathBuf::from(&bobpy_config.project.libraries_path),
        PathBuf::from("my_libraries")
    );
    assert_eq!(bobpy_config.requirement_lock.len(), 2);
    assert_eq!(bobpy_config.requirement_lock.get("my_package").unwrap(), "1.0.0");
    assert_eq!(
        bobpy_config.requirement_lock.get("my_other_package").unwrap(),
        "2.0.0"
    );
}

#[test]
fn test_requirement_to_string() {
    let requirement = Requirement {
        name: "my_package".to_string(),
        version: "1.0.0".to_string(),
    };
    assert_eq!(requirement.to_string(), "my_package1.0.0");
}

#[test]
fn a_requirement_is_its_name_followed_by_its_locked_version() {
    let requirement = Requirement {
        name: "a".to_string(),
        version: "==1.0".to_string(),
    };
    assert_eq!(requirement.to_string(), "a==1.0");
    let loose = Requirement {
        name: "flask".to_string(),
        version: ">=2,<3".to_string(),
    };
    assert_eq!(loose.to_string(), "flask>=2,<3");
}

#[test]
fn lock_table_insert_replaces_and_get_finds() {
    let mut lock = RequirementLockMap::new();
    assert_eq!(lock.len(), 0);
    assert!(lock.get("a").is_none());
    lock.insert("a".to_string(), "==1.0".to_string());
    lock.insert("b".to_string(), "==2.0".to_string());
    assert_eq!(lock.len(), 2);
    assert_eq!(lock.get("a").unwrap(), "==1.0");
    assert_eq!(lock.get("b").unwrap(), "==2.0");
    lock.insert("a".to_string(), "==1.1".to_string());
    assert_eq!(lock.len(), 2);
    assert_eq!(lock.get("a").unwrap(), "==1.1");
    assert!(lock.get("c").is_none());
    assert!(lock.get("").is_none());
}

#[test]
fn settings_keep_one_default_when_only_one_path_is_given() {
    let config = BobpyConfig::from_str("[project]\nservices_path = \"svc\"\n").unwrap();
    assert_eq!(config.project.services_path, "svc");
    assert_eq!(config.project.libraries_path, "libraries");
    assert_eq!(config.requirement_lock.len(), 0);
}

#[test]
fn settings_ignore_unknown_keys() {
    let config = BobpyConfig::from_str("other = 3\n[project]\ncolour = \"red\"\n").unwrap();
    assert_eq!(config.project.services_path, "services");
    assert_eq!(config.project.libraries_path, "libraries");
}

fn wrong_kind(result: Result<BobpyConfig, InvalidConfig>) -> String {
    match result {
        Err(InvalidConfig::WrongKind { key }) => key,
        other => panic!("expected a key of the wrong kind, got {:?}", other),
    }
}

#[test]
fn settings_with_a_path_that_is_no_text_are_invalid() {
    assert_eq!(
        wrong_kind(BobpyConfig::from_str("[project]\nservices_path = 3\n")),
        "project.services_path"
    );
    assert_eq!(
        wrong_kind(BobpyConfig::from_str("[project]\nlibraries_path = [\"a\"]\n")),
        "project.libraries_path"
    );
    assert_eq!(wrong_kind(BobpyConfig::from_str("project = \"x\"\n")), "project");
}

#[test]
fn settings_with_a_lock_that_is_no_table_of_texts_are_invalid() {
    assert_eq!(
        wrong_kind(BobpyConfig::from_str("requirement_lock = \"x\"\n")),
        "requirement_lock"
    );
    assert_eq!(
        wrong_kind(BobpyConfig::from_str("[requirement_lock]\na = 1\n")),
        "requirement_lock"
    );
}

#[test]
fn settings_that_are_no_toml_are_unreadable() {
    let result = BobpyConfig::from_str("[project\nservices_path = ");
    assert!(matches!(result, Err(InvalidConfig::Unreadable)));
}

#[test]
fn settings_nested_too_deeply_are_unreadable() {
    let deep = format!("x = {}1{}\n", "[".repeat(200), "]".repeat(200));
    assert!(matches!(BobpyConfig::from_str(&deep), Err(InvalidConfig::Unreadable)));
}

#[test]
fn a_quoted_settings_key_with_a_subscript_or_a_dot_is_an_ordinary_key() {
    let config =
        BobpyConfig::from_str("\"a[-1]\" = 1\n\"project.services_path\" = \"no\"\n").unwrap();
    assert_eq!(config.project.services_path, "services");
    let text = "[requirement_lock]\n\"a.b\" = \"==1.0\"\n\"c[0]\" = \"==2.0\"\n";
    let config = BobpyConfig::from_str(text).unwrap();
    assert_eq!(config.requirement_lock.len(), 2);
    assert_eq!(config.requirement_lock.get("a.b").unwrap(), "==1.0");
    assert_eq!(config.requirement_lock.get("c[0]").unwrap(), "==2.0");
}

#[test]
fn settings_from_lookups_take_defaults_for_missing_keys() {
    let config = BobpyConfig::from_lookups(
        Lookup::Table(vec![
            ("libraries_path".to_string(), Some("libs".to_string())),
            ("colour".to_string(), None),
        ]),
        Lookup::Table(vec![
            ("a".to_string(), Some("==1.0".to_string())),
            ("b".to_string(), Some("==2.0".to_string())),
        ]),
    )
    .unwrap();
    assert_eq!(config.project.services_path, "services");
    assert_eq!(config.project.libraries_path, "libs");
    assert_eq!(config.requirement_lock.len(), 2);
    assert_eq!(config.requirement_lock.get("a").unwrap(), "==1.0");
    assert_eq!(config.requirement_lock.get("b").unwrap(), "==2.0");
    let bare = BobpyConfig::from_lookups(Lookup::Missing, Lookup::Missing).unwrap();
    assert_eq!(bare.project.services_path, "services");
    assert_eq!(bare.project.libraries_path, "libraries");
    assert_eq!(bare.requirement_lock.len(), 0);
}

#[test]
fn the_first_pair_of_a_key_counts() {
    let config = BobpyConfig::from_lookups(
        Lookup::Table(vec![
            ("services_path".to_string(), Some("first".to_string())),
            ("services_path".to_string(), None),
        ]),
        Lookup::Table(vec![
            ("a".to_string(), Some("==1.0".to_string())),
            ("a".to_string(), None),
            ("a".to_string(), Some("==3.0".to_string())),
        ]),
    )
    .unwrap();
    assert_eq!(config.project.services_path, "first");
    assert_eq!(config.requirement_lock.len(), 1);
    assert_eq!(config.requirement_lock.get("a").unwrap(), "==1.0");
    let result = BobpyConfig::from_lookups(
        Lookup::Missing,
        Lookup::Table(vec![("a".to_string(), None), ("a".to_string(), Some("==1.0".to_string()))]),
    );
    assert_eq!(wrong_kind(result), "requirement_lock");
}

#[test]
fn settings_from_lookups_name_the_first_thing_at_fault() {
    let unreadable = BobpyConfig::from_lookups(Lookup::Invalid, Lookup::Other);
    assert!(matches!(unreadable, Err(InvalidConfig::Unreadable)));
    assert_eq!(wrong_kind(BobpyConfig::from_lookups(Lookup::Other, Lookup::Invalid)), "project");
    assert_eq!(
        wrong_kind(BobpyConfig::from_lookups(Lookup::List(vec![]), Lookup::Missing)),
        "project"
    );
    let paths = Lookup::Table(vec![
        ("libraries_path".to_string(), None),
        ("services_path".to_string(), None),
    ]);
    assert_eq!(
        wrong_kind(BobpyConfig::from_lookups(paths, Lookup::Other)),
        "project.services_path"
    );
    let library = Lookup::Table(vec![("libraries_path".to_string(), None)]);
    assert_eq!(
        wrong_kind(BobpyConfig::from_lookups(library, Lookup::Missing)),
        "project.libraries_path"
    );
    let late = BobpyConfig::from_lookups(Lookup::Missing, Lookup::Invalid);
    assert!(matches!(late, Err(InvalidConfig::Unreadable)));
    assert_eq!(
        wrong_kind(BobpyConfig::from_lookups(Lookup::Missing, Lookup::List(vec![]))),
        "requirement_lock"
    );
}
