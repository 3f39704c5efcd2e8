use bobpy::commands::{build_needed, docker_build_arguments};
use bobpy::git::{any_service_files_changed, changed_paths, space};
use std::path::PathBuf;

fn path_text(path: PathBuf) -> String {
    path.to_str().unwrap().to_string()
}

#[test]
fn test_any_service_files_changed_gets_simple_change() {
    let changed_files = vec!["testdir/file1.txt".to_string()];
    let service_files = vec![path_text(PathBuf::from("testdir"))];
    assert!(any_service_files_changed(&changed_files, &service_files));
}

#[test]
fn test_any_service_files_changed_gets_no_change() {
    let changed_files = vec!["testdir/file1.txt".to_string()];
    let service_files = vec![path_text(PathBuf::from("testdir2"))];
    assert!(!any_service_files_changed(&changed_files, &service_files));
}

#[test]
fn test_any_service_files_changed_gets_change_in_nested_dirs() {
    let changed_files = vec!["testdir/dir1/file1.txt".to_string()];
    let service_files = vec![path_text(PathBuf::from("testdir"))];
    assert!(any_service_files_changed(&changed_files, &service_files));
}

#[test]
fn nothing_changed_means_no_service_file_changed() {
    let service_files = vec!["testdir".to_string()];
    assert!(!any_service_files_changed(&vec![], &service_files));
    assert!(!any_service_files_changed(&vec!["testdir/a".to_string()], &vec![]));
}

#[test]
fn a_change_is_found_among_several_paths() {
    let changed = vec!["docs/readme".to_string(), "libs/b/x.py".to_string()];
    let service = vec!["services/app".to_string(), "libs/a".to_string(), "libs/b".to_string()];
    assert!(any_service_files_changed(&changed, &service));
    let elsewhere = vec!["docs/readme".to_string(), "lib".to_string()];
    assert!(!any_service_files_changed(&elsewhere, &service));
}

#[test]
fn changed_paths_are_the_words_of_the_listing() {
    assert_eq!(
        changed_paths("a/b.py\nservices/app/main.py\n"),
        vec!["a/b.py", "services/app/main.py"]
    );
    assert_eq!(changed_paths("  x \t y\r\n\nz"), vec!["x", "y", "z"]);
    assert_eq!(changed_paths("single"), vec!["single"]);
    assert_eq!(changed_paths(""), Vec::<String>::new());
    assert_eq!(changed_paths(" \n\t "), Vec::<String>::new());
    assert_eq!(changed_paths("caf\u{e9}\u{a0}na\u{ef}ve\u{3000}x"), vec!["caf\u{e9}", "na\u{ef}ve", "x"]);
}

#[test]
fn space_agrees_with_the_white_space_property() {
    let mut code: u32 = 0;
    while code < 0x3100 {
        if let Some(c) = char::from_u32(code) {
            assert_eq!(space(c), c.is_whitespace());
        }
        code += 1;
    }
}

#[test]
fn a_build_is_needed_without_a_check_or_after_a_change() {
    let service = vec!["services/app".to_string(), "libs/a".to_string()];
    assert!(build_needed(&None, &service));
    assert!(build_needed(&Some(vec!["libs/a/x.py".to_string()]), &service));
    assert!(!build_needed(&Some(vec!["libs/b/x.py".to_string()]), &service));
    assert!(!build_needed(&Some(vec![]), &service));
}

#[test]
fn docker_arguments_name_the_sandbox_and_the_dockerfile() {
    let extra = vec!["--tag".to_string(), "app:1".to_string()];
    assert_eq!(
        docker_build_arguments(".bobpy/builds/x", "services/app", &extra),
        vec![
            "build",
            ".bobpy/builds/x",
            "--file",
            ".bobpy/builds/x/services/app/Dockerfile",
            "--tag",
            "app:1"
        ]
    );
    assert_eq!(
        docker_build_arguments("out", "svc", &vec![]),
        vec!["build", "out", "--file", "out/svc/Dockerfile"]
    );
}
