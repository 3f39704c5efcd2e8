use bobpy::config::RequirementLockMap;
use bobpy::parsing::{
    BuildDependencies, BuildFile, ParseError, ServiceContext, ServiceDependencies,
};
use bobpy::source::{nests_within_limit, Lookup};
use std::path::PathBuf;

fn path_text(path: PathBuf) -> String {
    path.to_str().unwrap().to_string()
}

#[test]
fn test_build_dependencies_defaults_from_empty_str() {
    let build_dependencies = BuildDependencies::from_str("").unwrap();
    assert_eq!(build_dependencies.requirements.len(), 0);
    assert_eq!(build_dependencies.libraries.len(), 0);
    assert_eq!(build_dependencies.paths.len(), 0);
    assert_eq!(build_dependencies, BuildDependencies::default());
}

#[test]
fn test_build_dependencies_correctly_parses_inputs() {
    let build_dependencies = BuildDependencies::from_str(
        r#"
            requirements = ["requests", "flask"]
            libraries = ["lib1", "lib2"]
            paths = ["path1", "path2"]
            "#,
    )
    .unwrap();
    assert_eq!(build_dependencies.requirements, vec!["requests", "flask"]);
    assert_eq!(
        build_dependencies.libraries,
        vec![path_text(PathBuf::from("lib1")), path_text(PathBuf::from("lib2"))]
    );
    assert_eq!(
        build_dependencies.paths,
        vec![path_text(PathBuf::from("path1")), path_text(PathBuf::from("path2"))]
    );
}

#[test]
fn test_build_dependencies_from_path() {
    let contents = "";
    let _ = BuildDependencies::from_str(contents).unwrap();
}

#[test]
fn test_build_file_from_path() {
    let contents = "";
    let _ = BuildFile::from_contents("tmp/BUILD", Some(contents)).unwrap();
}

#[test]
fn test_service_dependencies_extend() {
    let mut service_deps = ServiceDependencies::default();
    let build_deps = BuildDependencies {
        requirements: vec!["requests".to_string()],
        libraries: vec![path_text(PathBuf::from("lib1"))],
        paths: vec![path_text(PathBuf::from("path1"))],
    };

    service_deps.extend(&build_deps);
    assert!(service_deps.requirements.contains(&"requests".to_string()));
    assert!(service_deps.libraries.contains(&path_text(PathBuf::from("lib1"))));
    assert!(service_deps.paths.contains(&path_text(PathBuf::from("path1"))));
}

#[test]
fn extend_keeps_each_text_once_and_in_order() {
    let mut deps = ServiceDependencies::default();
    deps.extend(&BuildDependencies {
        requirements: vec!["b".to_string(), "a".to_string(), "b".to_string()],
        libraries: vec![],
        paths: vec!["p".to_string()],
    });
    deps.extend(&BuildDependencies {
        requirements: vec!["a".to_string(), "c".to_string()],
        libraries: vec!["l".to_string()],
        paths: vec!["p".to_string()],
    });
    assert_eq!(deps.requirements.to_vec(), vec!["b", "a", "c"]);
    assert_eq!(deps.libraries.to_vec(), vec!["l"]);
    assert_eq!(deps.paths.to_vec(), vec!["p"]);
    assert_eq!(deps.requirements.len(), 3);
    assert!(!deps.requirements.contains(&"d".to_string()));
}

#[test]
fn unknown_keys_of_a_manifest_are_ignored() {
    let deps = BuildDependencies::from_str("name = \"x\"\nrequirements = [\"a\"]\n[extra]\nk = 1\n")
        .unwrap();
    assert_eq!(deps.requirements, vec!["a"]);
    assert_eq!(deps.libraries.len(), 0);
    assert_eq!(deps.paths.len(), 0);
}

fn malformed_key(text: &str) -> String {
    match BuildDependencies::from_str(text) {
        Err(ParseError::ManifestMalformed { key }) => key,
        other => panic!("expected a malformed manifest, got {:?}", other),
    }
}

#[test]
fn a_scalar_in_place_of_an_array_is_malformed() {
    assert_eq!(malformed_key("requirements = \"requests\"\n"), "requirements");
    assert_eq!(malformed_key("libraries = 3\n"), "libraries");
    assert_eq!(malformed_key("paths = true\n"), "paths");
    assert_eq!(malformed_key("[paths]\na = \"b\"\n"), "paths");
}

#[test]
fn an_array_that_holds_more_than_texts_is_malformed() {
    assert_eq!(malformed_key("requirements = [1, 2]\n"), "requirements");
    assert_eq!(malformed_key("paths = [[\"a\"], [\"b\"]]\n"), "paths");
}

#[test]
fn the_first_malformed_key_is_named() {
    assert_eq!(malformed_key("paths = 1\nlibraries = 2\n"), "libraries");
    assert_eq!(malformed_key("paths = 1\nlibraries = 2\nrequirements = 3\n"), "requirements");
}

#[test]
fn a_text_that_is_no_toml_is_unreadable() {
    let result = BuildDependencies::from_str("requirements = [\"a\"");
    assert!(matches!(result, Err(ParseError::ManifestUnreadable)));
    let error = BuildFile::from_contents("libs/a/BUILD", Some("= = =")).unwrap_err();
    assert_eq!(error.manifest_path, "libs/a/BUILD");
    assert!(matches!(error.cause, ParseError::ManifestUnreadable));
}

#[test]
fn a_text_nested_too_deeply_is_unreadable() {
    let deep = format!("x = {}1{}\n", "[".repeat(127), "]".repeat(127));
    assert!(matches!(
        BuildDependencies::from_str(&deep),
        Err(ParseError::ManifestUnreadable)
    ));
    let dotted = format!("{}x = 1\n", "a.".repeat(64));
    assert!(matches!(
        BuildDependencies::from_str(&dotted),
        Err(ParseError::ManifestUnreadable)
    ));
    let shallow = format!("x = {}1{}\nrequirements = [\"a\"]\n", "[".repeat(100), "]".repeat(100));
    assert_eq!(BuildDependencies::from_str(&shallow).unwrap().requirements, vec!["a"]);
}

#[test]
fn the_nesting_bound_counts_openers_and_the_dots_of_one_line() {
    assert!(nests_within_limit(""));
    assert!(nests_within_limit("requirements = [\"a.b.c\", \"d\"]\nlibraries = []\n"));
    assert!(nests_within_limit(&format!("{}{}", "[".repeat(100), ".".repeat(13))));
    assert!(!nests_within_limit(&format!("{}{}", "[".repeat(100), ".".repeat(14))));
    assert!(nests_within_limit(&"a.b.c = \"1.2.3\"\n".repeat(500)));
    assert!(nests_within_limit(&"{".repeat(126)));
    assert!(!nests_within_limit(&"{".repeat(127)));
    assert!(nests_within_limit(&".".repeat(63)));
    assert!(!nests_within_limit(&".".repeat(64)));
    assert!(nests_within_limit(&format!("{}\n{}", ".".repeat(63), ".".repeat(63))));
}

#[test]
fn a_quoted_key_with_a_subscript_or_a_dot_is_an_ordinary_key() {
    let deps = BuildDependencies::from_str("\"a[-1]\" = 1\nrequirements = [\"r\"]\n").unwrap();
    assert_eq!(deps.requirements, vec!["r"]);
    let text = "\"requirements.x\" = \"y\"\nrequirements = [\"a\"]\n\"paths.p\" = 1\n";
    let mut round = 0;
    while round < 20 {
        let deps = BuildDependencies::from_str(text).unwrap();
        assert_eq!(deps.requirements, vec!["a"]);
        assert_eq!(deps.paths.len(), 0);
        round += 1;
    }
}

#[test]
fn a_manifest_from_lookups_takes_missing_keys_as_empty() {
    let deps = BuildDependencies::from_lookups(
        Lookup::List(vec![Some("a".to_string())]),
        Lookup::Missing,
        Lookup::List(vec![]),
    )
    .unwrap();
    assert_eq!(deps.requirements, vec!["a"]);
    assert_eq!(deps.libraries.len(), 0);
    assert_eq!(deps.paths.len(), 0);
}

#[test]
fn a_manifest_from_lookups_names_the_first_malformed_key() {
    let with_other = BuildDependencies::from_lookups(
        Lookup::Missing,
        Lookup::List(vec![Some("l".to_string()), None]),
        Lookup::Other,
    );
    assert!(matches!(with_other, Err(ParseError::ManifestMalformed { key }) if key == "libraries"));
    let invalid = BuildDependencies::from_lookups(Lookup::Invalid, Lookup::Other, Lookup::Invalid);
    assert!(matches!(invalid, Err(ParseError::ManifestUnreadable)));
    let late = BuildDependencies::from_lookups(Lookup::Missing, Lookup::Other, Lookup::Invalid);
    assert!(matches!(late, Err(ParseError::ManifestMalformed { key }) if key == "libraries"));
    let last = BuildDependencies::from_lookups(Lookup::Missing, Lookup::Missing, Lookup::Invalid);
    assert!(matches!(last, Err(ParseError::ManifestUnreadable)));
    let table = BuildDependencies::from_lookups(
        Lookup::Missing,
        Lookup::Missing,
        Lookup::Table(vec![("a".to_string(), Some("b".to_string()))]),
    );
    assert!(matches!(table, Err(ParseError::ManifestMalformed { key }) if key == "paths"));
    let text = BuildDependencies::from_lookups(
        Lookup::Text("a".to_string()),
        Lookup::Missing,
        Lookup::Missing,
    );
    assert!(matches!(text, Err(ParseError::ManifestMalformed { key }) if key == "requirements"));
}

#[test]
fn a_build_file_belongs_to_the_directory_of_its_manifest() {
    let file = BuildFile::from_contents("libs/a/BUILD", Some("requirements = [\"x\"]\n")).unwrap();
    assert_eq!(file.path, "libs/a");
    assert_eq!(file.dependencies.requirements, vec!["x"]);
    let top = BuildFile::from_contents("BUILD", Some("")).unwrap();
    assert_eq!(top.path, "");
}

#[test]
fn a_missing_manifest_file_is_not_found() {
    let error = BuildFile::from_contents("services/app/BUILD", None).unwrap_err();
    assert_eq!(error.manifest_path, "services/app/BUILD");
    assert!(matches!(error.cause, ParseError::ManifestNotFound));
}

#[test]
fn a_malformed_manifest_file_is_named_with_its_key() {
    let error = BuildFile::from_contents("libs/a/BUILD", Some("libraries = \"b\"\n")).unwrap_err();
    assert_eq!(error.manifest_path, "libs/a/BUILD");
    assert!(matches!(error.cause, ParseError::ManifestMalformed { key } if key == "libraries"));
}

fn service(requirements: Vec<&str>, libraries: Vec<&str>, paths: Vec<&str>) -> ServiceContext {
    let mut dependencies = ServiceDependencies::default();
    dependencies.extend(&BuildDependencies {
        requirements: requirements.into_iter().map(String::from).collect(),
        libraries: libraries.into_iter().map(String::from).collect(),
        paths: paths.into_iter().map(String::from).collect(),
    });
    ServiceContext { path: "services/app".to_string(), dependencies }
}

fn lock(entries: Vec<(&str, &str)>) -> RequirementLockMap {
    let mut table = RequirementLockMap::new();
    for (name, version) in entries {
        table.insert(name.to_string(), version.to_string());
    }
    table
}

#[test]
fn all_paths_are_the_service_then_libraries_then_paths() {
    let context = service(vec!["r"], vec!["libs/b", "libs/a"], vec!["data", "conf/x.json"]);
    assert_eq!(
        context.get_all_paths(),
        vec!["services/app", "libs/b", "libs/a", "data", "conf/x.json"]
    );
    assert_eq!(service(vec![], vec![], vec![]).get_all_paths(), vec!["services/app"]);
}

#[test]
fn versioned_requirements_take_their_versions_from_the_lock() {
    let context = service(vec!["b", "a"], vec![], vec![]);
    let table = lock(vec![("a", "==1.0"), ("b", "==2.0"), ("c", "==3.0")]);
    let versioned = context.get_versioned_requirements(&table).unwrap();
    assert_eq!(versioned.len(), 2);
    assert_eq!(versioned[0].name, "b");
    assert_eq!(versioned[0].version, "==2.0");
    assert_eq!(versioned[1].name, "a");
    assert_eq!(versioned[1].version, "==1.0");
    assert_eq!(context.get_requirements_list(&table).unwrap(), vec!["a==1.0", "b==2.0"]);
}

#[test]
fn the_listing_is_sorted_and_has_no_final_line_break() {
    let context = service(vec!["b", "a", "ab", "B"], vec![], vec![]);
    let table = lock(vec![("a", "==1.0"), ("b", "==2.0"), ("ab", ">=0.1"), ("B", "==9")]);
    assert_eq!(context.render_requirements(&table).unwrap(), "B==9\na==1.0\nab>=0.1\nb==2.0");
    assert_eq!(service(vec![], vec![], vec![]).render_requirements(&table).unwrap(), "");
    assert_eq!(service(vec!["a"], vec![], vec![]).render_requirements(&table).unwrap(), "a==1.0");
}

#[test]
fn the_listing_does_not_depend_on_the_order_of_discovery() {
    let table = lock(vec![("a", "==1.0"), ("b", "==2.0"), ("c", "==3.0")]);
    let one = service(vec!["a", "b", "c"], vec![], vec![]);
    let other = service(vec!["c", "a", "b", "a"], vec![], vec![]);
    let first = one.render_requirements(&table).unwrap();
    assert_eq!(first, "a==1.0\nb==2.0\nc==3.0");
    assert_eq!(other.render_requirements(&table).unwrap(), first);
    assert_eq!(one.render_requirements(&table).unwrap(), first);
}

#[test]
fn an_unlocked_requirement_is_named() {
    let context = service(vec!["a", "missing", "b", "also_missing"], vec![], vec![]);
    let table = lock(vec![("a", "==1.0"), ("b", "==2.0")]);
    assert_eq!(context.get_versioned_requirements(&table).unwrap_err().name, "missing");
    assert_eq!(context.get_requirements_list(&table).unwrap_err().name, "missing");
    assert_eq!(context.render_requirements(&table).unwrap_err().name, "missing");
    let empty = lock(vec![]);
    assert_eq!(context.render_requirements(&empty).unwrap_err().name, "a");
}
