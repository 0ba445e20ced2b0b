use std::path::Path;

use gatefs::runtime::{
    join_path, project_dirs, runtime_dir_from_locations, runtime_dir_from_project_dirs,
    runtime_dir_from_lookup, runtime_dir_with_override, runtime_tmp_dir, RuntimeError, RuntimePaths,
};
use tempfile::TempDir;

fn text(path: &Path) -> String {
    path.to_str().unwrap().to_string()
}

#[test]
fn env_runtime_dir_wins() {
    let temp = TempDir::new().unwrap();
    let given = text(temp.path());
    assert_eq!(runtime_dir_with_override(Some(given.clone())).unwrap(), given);
}

#[test]
fn default_socket_is_per_sandbox() {
    let temp = TempDir::new().unwrap();
    let runtime = RuntimePaths::for_tests(text(temp.path()), None);
    assert_eq!(runtime.socket_path("demo"), text(&temp.path().join("demo.sock")));
}

#[test]
fn log_dir_can_be_separate_from_runtime_dir() {
    let runtime_temp = TempDir::new().unwrap();
    let log_temp = TempDir::new().unwrap();
    let runtime = RuntimePaths::for_tests_with_log_dir(
        text(runtime_temp.path()),
        text(log_temp.path()),
        None,
    );
    assert_eq!(
        runtime.socket_path("demo"),
        text(&runtime_temp.path().join("demo.sock"))
    );
    assert_eq!(
        runtime.sandbox_log_path("demo"),
        text(&log_temp.path().join("demo.log"))
    );
}

#[test]
fn default_runtime_comes_from_directories_project_dirs() {
    match project_dirs() {
        Ok(dirs) => {
            let expected = runtime_dir_from_project_dirs(&dirs);
            assert_eq!(runtime_dir_with_override(None).unwrap(), expected);
        }
        Err(error) => {
            assert_eq!(error, RuntimeError::NoProjectDirs);
            assert_eq!(runtime_dir_with_override(None), Err(RuntimeError::NoProjectDirs));
        }
    }
}

#[test]
fn project_runtime_dir_falls_back_to_cache_run() {
    assert_eq!(
        runtime_dir_from_locations(Some("/run/user/1000/gatefs".to_string()), "/home/a/.cache/gatefs"),
        "/run/user/1000/gatefs"
    );
    assert_eq!(
        runtime_dir_from_locations(None, "/home/a/.cache/gatefs"),
        "/home/a/.cache/gatefs/run"
    );
}

#[test]
fn socket_override_is_used_as_given() {
    let runtime = RuntimePaths::for_tests("/r".to_string(), Some("/tmp/custom.sock".to_string()));
    assert_eq!(runtime.socket_path("demo"), "/tmp/custom.sock");
    assert_eq!(runtime.sandbox_log_path("demo"), "/r/demo.log");
}

#[test]
fn log_dir_override_and_default() {
    let paths = RuntimePaths::with_log_dir_override("/r".to_string(), None, None);
    assert_eq!(paths.log_dir, "/r");
    assert_eq!(paths.log_dir(), "/r");
    assert_eq!(paths.sandbox_log_path("demo"), "/r/demo.log");
    let paths = RuntimePaths::with_log_dir_override("/r".to_string(), Some("/logs".to_string()), None);
    assert_eq!(paths.runtime_dir, "/r");
    assert_eq!(paths.runtime_dir(), "/r");
    assert_eq!(paths.log_dir(), "/logs");
    assert_eq!(paths.sandbox_log_path("demo"), "/logs/demo.log");
}

#[test]
fn tmp_mount_dirs_live_under_runtime_tmp() {
    let paths = RuntimePaths::for_tests("/r".to_string(), None);
    assert_eq!(paths.tmp_mount_dir("demo", 42), "/r/tmp/demo-42");
    assert_eq!(paths.tmp_mount_dir("demo", 0), "/r/tmp/demo-0");
    assert_eq!(runtime_tmp_dir("/r"), "/r/tmp");
    assert_eq!(
        paths.tmp_mount_dir("demo", u64::MAX),
        format!("/r/tmp/demo-{}", u64::MAX)
    );
}

#[test]
fn join_path_matches_std_path_join() {
    let cases = [
        ("/a/b", "c"),
        ("/a/b/", "c"),
        ("", "c"),
        ("/a", "/abs"),
        ("rel", "x/y"),
        ("/a", ""),
        ("/", "c"),
    ];
    for (base, component) in cases {
        assert_eq!(join_path(base, component), text(&Path::new(base).join(component)));
    }
}

#[test]
fn runtime_error_message() {
    assert_eq!(
        RuntimeError::NoProjectDirs.message(),
        "could not determine standard project directories for gatefs"
    );
}

#[test]
fn project_names_are_those_of_gatefs() {
    assert_eq!(gatefs::runtime::project_names(), ("net", "xz-dev", "gatefs"));
}

#[test]
fn tmp_mount_dirs_differ_across_names_and_operations() {
    let paths = RuntimePaths::for_tests("/r".to_string(), None);
    assert_ne!(paths.tmp_mount_dir("a-1", 2), paths.tmp_mount_dir("a", 12));
    assert_ne!(paths.tmp_mount_dir("a", 1), paths.tmp_mount_dir("b", 1));
}

#[test]
fn missing_project_dirs_are_an_error() {
    assert_eq!(runtime_dir_from_lookup(None), Err(RuntimeError::NoProjectDirs));
    if let Ok(dirs) = project_dirs() {
        let expected = runtime_dir_from_project_dirs(&dirs);
        assert_eq!(runtime_dir_from_lookup(Some(dirs)), Ok(expected));
    }
}
