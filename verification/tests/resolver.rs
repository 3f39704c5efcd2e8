use bobpy::config::RequirementLockMap;
use bobpy::index::ManifestIndex;
use bobpy::parsing::{BuildDependencies, BuildFile, ParseError, ServiceContext, ServiceDependencies};
use bobpy::resolver::Resolver;
use bobpy::search::resolve;

fn manifest(requirements: Vec<&str>, libraries: Vec<&str>, paths: Vec<&str>) -> BuildDependencies {
    BuildDependencies {
        requirements: requirements.into_iter().map(String::from).collect(),
        libraries: libraries.into_iter().map(String::from).collect(),
        paths: paths.into_iter().map(String::from).collect(),
    }
}

fn index_of(files: Vec<(&str, BuildDependencies)>) -> ManifestIndex {
    let mut index = ManifestIndex::new();
    for (dir, dependencies) in files {
        index.insert(BuildFile { path: dir.to_string(), dependencies });
    }
    index
}

fn sorted(mut texts: Vec<String>) -> Vec<String> {
    texts.sort();
    texts
}

fn sets_of(closure: &ServiceDependencies) -> (Vec<String>, Vec<String>, Vec<String>) {
    (
        sorted(closure.requirements.to_vec()),
        sorted(closure.libraries.to_vec()),
        sorted(closure.paths.to_vec()),
    )
}

#[test]
fn a_manifest_without_libraries_is_its_own_closure() {
    let root = manifest(vec!["flask", "requests"], vec![], vec!["conf", "data/x.json"]);
    let index = index_of(vec![
        ("services/app", manifest(vec!["flask", "requests"], vec![], vec!["conf", "data/x.json"])),
        ("libs/a", manifest(vec!["numpy"], vec!["libs/b"], vec!["other"])),
    ]);
    let closure = resolve(&root, &index);
    assert_eq!(closure.requirements.to_vec(), vec!["flask", "requests"]);
    assert_eq!(closure.libraries.len(), 0);
    assert_eq!(closure.paths.to_vec(), vec!["conf", "data/x.json"]);
    let alone = resolve(&manifest(vec![], vec![], vec![]), &ManifestIndex::new());
    assert_eq!(alone.requirements.len(), 0);
    assert_eq!(alone.libraries.len(), 0);
    assert_eq!(alone.paths.len(), 0);
}

#[test]
fn a_library_reached_twice_is_gathered_once() {
    let root = manifest(vec!["r"], vec!["libs/a", "libs/b"], vec![]);
    let index = index_of(vec![
        ("libs/a", manifest(vec!["ra"], vec!["libs/c"], vec!["pa"])),
        ("libs/b", manifest(vec!["rb"], vec!["libs/c"], vec!["pb"])),
        ("libs/c", manifest(vec!["rc", "r"], vec![], vec!["pc", "pa"])),
        ("libs/unused", manifest(vec!["never"], vec![], vec!["never"])),
    ]);
    let closure = resolve(&root, &index);
    let (requirements, libraries, paths) = sets_of(&closure);
    assert_eq!(requirements, vec!["r", "ra", "rb", "rc"]);
    assert_eq!(libraries, vec!["libs/a", "libs/b", "libs/c"]);
    assert_eq!(paths, vec!["pa", "pb", "pc"]);
    assert_eq!(closure.libraries.len(), 3);
}

#[test]
fn the_closure_does_not_depend_on_the_order_of_the_manifests() {
    let root = manifest(vec![], vec!["libs/b", "libs/a"], vec![]);
    let one = index_of(vec![
        ("libs/a", manifest(vec!["ra"], vec!["libs/c"], vec![])),
        ("libs/b", manifest(vec!["rb"], vec!["libs/c"], vec![])),
        ("libs/c", manifest(vec!["rc"], vec![], vec![])),
    ]);
    let other = index_of(vec![
        ("libs/c", manifest(vec!["rc"], vec![], vec![])),
        ("libs/b", manifest(vec!["rb"], vec!["libs/c"], vec![])),
        ("libs/a", manifest(vec!["ra"], vec!["libs/c"], vec![])),
    ]);
    assert_eq!(sets_of(&resolve(&root, &one)), sets_of(&resolve(&root, &other)));
}

#[test]
fn a_circle_of_libraries_ends_and_adds_nothing() {
    let root = manifest(vec!["r"], vec!["a"], vec![]);
    let with_circle = index_of(vec![
        ("a", manifest(vec!["ra"], vec!["b"], vec!["pa"])),
        ("b", manifest(vec!["rb"], vec!["a"], vec!["pb"])),
    ]);
    let without = index_of(vec![
        ("a", manifest(vec!["ra"], vec!["b"], vec!["pa"])),
        ("b", manifest(vec!["rb"], vec![], vec!["pb"])),
    ]);
    let closure = resolve(&root, &with_circle);
    assert_eq!(sets_of(&closure), sets_of(&resolve(&root, &without)));
    let (requirements, libraries, paths) = sets_of(&closure);
    assert_eq!(requirements, vec!["r", "ra", "rb"]);
    assert_eq!(libraries, vec!["a", "b"]);
    assert_eq!(paths, vec!["pa", "pb"]);
}

#[test]
fn a_library_that_refers_to_itself_ends() {
    let root = manifest(vec![], vec!["a"], vec![]);
    let index = index_of(vec![("a", manifest(vec!["ra"], vec!["a", "a"], vec![]))]);
    let (requirements, libraries, _) = sets_of(&resolve(&root, &index));
    assert_eq!(requirements, vec!["ra"]);
    assert_eq!(libraries, vec!["a"]);
}

#[test]
fn manifests_below_a_library_are_found_at_any_depth() {
    let root = manifest(vec![], vec!["libs"], vec![]);
    let index = index_of(vec![
        ("libs/a", manifest(vec!["ra"], vec![], vec![])),
        ("libs/a/deep/er", manifest(vec!["rdeep"], vec!["other"], vec![])),
        ("libs2", manifest(vec!["no"], vec![], vec![])),
        ("libsx/a", manifest(vec!["no"], vec![], vec![])),
        ("other/sub", manifest(vec!["ro"], vec![], vec!["po"])),
    ]);
    let (requirements, libraries, paths) = sets_of(&resolve(&root, &index));
    assert_eq!(requirements, vec!["ra", "rdeep", "ro"]);
    assert_eq!(libraries, vec!["libs", "libs/a", "libs/a/deep/er", "other", "other/sub"]);
    assert_eq!(paths, vec!["po"]);
}

#[test]
fn a_library_without_manifest_is_kept_and_adds_nothing() {
    let root = manifest(vec!["r"], vec!["plain"], vec![]);
    let index = index_of(vec![("libs/a", manifest(vec!["ra"], vec![], vec![]))]);
    let (requirements, libraries, paths) = sets_of(&resolve(&root, &index));
    assert_eq!(requirements, vec!["r"]);
    assert_eq!(libraries, vec!["plain"]);
    assert_eq!(paths.len(), 0);
}

#[test]
fn references_are_taken_as_written_not_relative_to_the_manifest() {
    let root = manifest(vec![], vec!["libs/a"], vec![]);
    let index = index_of(vec![
        ("libs/a", manifest(vec![], vec!["libs/b"], vec!["data"])),
        ("libs/b", manifest(vec!["rb"], vec![], vec![])),
        ("libs/a/libs/b", manifest(vec!["nested"], vec![], vec![])),
    ]);
    let closure = resolve(&root, &index);
    assert!(closure.libraries.contains(&"libs/b".to_string()));
    assert!(closure.paths.contains(&"data".to_string()));
    assert!(!closure.paths.contains(&"libs/a/data".to_string()));
    assert!(closure.requirements.contains(&"rb".to_string()));
}

#[test]
fn end_to_end_from_manifest_texts_to_the_requirements_file() {
    let service = BuildFile::from_contents(
        "services/app/BUILD",
        Some("requirements = [\"a\"]\nlibraries = [\"lib1\"]\n"),
    )
    .unwrap();
    let library = BuildFile::from_contents(
        "lib1/BUILD",
        Some("requirements = [\"b\"]\npaths = [\"lib1/data\"]\n"),
    )
    .unwrap();
    let mut index = ManifestIndex::new();
    index.insert(service);
    index.insert(library);
    let context = ServiceContext::from_index("services/app", &index).unwrap();
    assert_eq!(context.path, "services/app");
    let (requirements, libraries, paths) = sets_of(&context.dependencies);
    assert_eq!(requirements, vec!["a", "b"]);
    assert_eq!(libraries, vec!["lib1"]);
    assert_eq!(paths, vec!["lib1/data"]);
    let mut lock = RequirementLockMap::new();
    lock.insert("a".to_string(), "==1.0".to_string());
    lock.insert("b".to_string(), "==2.0".to_string());
    assert_eq!(context.render_requirements(&lock).unwrap(), "a==1.0\nb==2.0");
}

#[test]
fn a_service_without_manifest_is_not_found() {
    let index = index_of(vec![("lib1", manifest(vec![], vec![], vec![]))]);
    let error = match ServiceContext::from_index("services/app", &index) {
        Err(error) => error,
        Ok(_) => panic!("expected a missing manifest"),
    };
    assert_eq!(error.manifest_path, "services/app/BUILD");
    assert!(matches!(error.cause, ParseError::ManifestNotFound));
}

#[test]
fn the_index_keeps_one_manifest_per_directory() {
    let mut index = ManifestIndex::new();
    assert_eq!(index.len(), 0);
    assert!(index.find("a").is_none());
    index.insert(BuildFile { path: "a".to_string(), dependencies: manifest(vec!["x"], vec![], vec![]) });
    index.insert(BuildFile { path: "b".to_string(), dependencies: manifest(vec!["y"], vec![], vec![]) });
    index.insert(BuildFile { path: "a".to_string(), dependencies: manifest(vec!["z"], vec![], vec![]) });
    assert_eq!(index.len(), 2);
    assert_eq!(index.find("a").unwrap().dependencies.requirements, vec!["z"]);
    assert_eq!(index.find("b").unwrap().dependencies.requirements, vec!["y"]);
    assert_eq!(index.get(0).path, "a");
    assert_eq!(index.get(1).path, "b");
    assert!(index.find("c").is_none());
}

#[test]
fn a_resolution_can_be_driven_step_by_step() {
    let root = manifest(vec!["r"], vec!["x", "y", "x"], vec!["p"]);
    let mut resolver = Resolver::start(&root);
    assert_eq!(resolver.pending, vec!["x", "y"]);
    assert_eq!(resolver.closure.libraries.to_vec(), vec!["x", "y"]);
    assert_eq!(resolver.next_library().unwrap(), "y");
    resolver.absorb(&BuildFile {
        path: "y/sub".to_string(),
        dependencies: manifest(vec!["ry", "r"], vec!["x", "z"], vec!["py"]),
    });
    assert_eq!(resolver.pending, vec!["x", "z"]);
    assert_eq!(resolver.visited.to_vec(), vec!["y/sub"]);
    assert!(resolver.has_merged("y/sub/BUILD"));
    assert!(!resolver.has_merged("y/BUILD"));
    assert!(!resolver.has_merged("x/BUILD"));
    assert_eq!(resolver.closure.libraries.to_vec(), vec!["x", "y", "y/sub", "z"]);
    assert_eq!(resolver.closure.requirements.to_vec(), vec!["r", "ry"]);
    assert_eq!(resolver.closure.paths.to_vec(), vec!["p", "py"]);
    resolver.absorb(&BuildFile {
        path: "y/sub".to_string(),
        dependencies: manifest(vec!["again"], vec!["again"], vec!["again"]),
    });
    assert_eq!(resolver.pending, vec!["x", "z"]);
    assert_eq!(resolver.closure.requirements.to_vec(), vec!["r", "ry"]);
    assert_eq!(resolver.next_library().unwrap(), "z");
    assert_eq!(resolver.next_library().unwrap(), "x");
    assert!(resolver.next_library().is_none());
    let closure = resolver.finish();
    assert_eq!(closure.libraries.to_vec(), vec!["x", "y", "y/sub", "z"]);
}
