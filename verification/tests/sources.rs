use stalepid::logging::{log_target, LogDirectory, LogPath, LogPathError, LogTarget};
use stalepid::sources::{
    join_configs, require_source, select_configs, ConfigRead, DirItem, LoadError,
};
use stalepid::PidProc;
use std::path::Path;

fn item(path: &str, is_file: bool) -> DirItem {
    DirItem {
        path: Path::new(path)
            .components()
            .map(|c| c.as_os_str().as_encoded_bytes().to_vec())
            .collect(),
        is_file,
    }
}

fn selected(paths: &[&str]) -> Vec<String> {
    let items: Vec<DirItem> = paths.iter().map(|p| item(p, true)).collect();
    select_configs(&items).iter().map(|i| paths[*i].to_string()).collect()
}

#[test]
fn configuration_files_by_extension() {
    let names = [
        "d/a.yml", "d/a.yaml", "d/a.yml.bak", "d/.yml", "d/..yml", "d/a.YML", "d/yml", "d/a.ym",
        "d/b.c.yaml", "d/.yaml", "d/a.", "d/ayml", "d/.a.yml",
    ];
    for name in names {
        let extension = Path::new(name).extension();
        let expected = extension.map_or(false, |e| e == "yml" || e == "yaml");
        assert_eq!(selected(&[name]).len() == 1, expected, "{}", name);
    }
    assert_eq!(select_configs(&vec![item("d/a.yml", false)]), Vec::<usize>::new());
    assert_eq!(select_configs(&vec![]), Vec::<usize>::new());
}

#[test]
fn configuration_files_in_the_order_of_paths() {
    let paths = [
        "d/z.yml", "d/a/z.yml", "d/a.yml", "d/a-b/c.yml", "d/a/b/c.yml", "d/é.yml", "d/B.yaml",
        "d/a/b.yml", "d/readme.txt", "d/aa.yml",
    ];
    let mut expected: Vec<&str> = paths.iter().copied().filter(|p| !p.ends_with("txt")).collect();
    expected.sort_by(|a, b| Path::new(a).cmp(Path::new(b)));
    assert_eq!(selected(&paths), expected);
    let mut backwards = paths.to_vec();
    backwards.reverse();
    assert_eq!(selected(&backwards), expected);
    backwards.push("d/notes.md");
    backwards.retain(|p| *p != "d/readme.txt");
    assert_eq!(selected(&backwards), expected);
}

#[test]
fn equal_paths_stay_in_place() {
    let items = vec![item("b.yml", true), item("a.yml", true), item("b.yml", true)];
    assert_eq!(select_configs(&items), vec![1, 0, 2]);
}

fn named(name: &str) -> PidProc {
    PidProc {
        file: "/run/x.pid".to_string(),
        name: name.to_string(),
        daemon_recurse_limit: 2,
    }
}

#[test]
fn configurations_are_joined_in_order() {
    assert_eq!(join_configs(vec![]), Ok(vec![]));
    assert_eq!(
        join_configs(vec![
            ConfigRead::Listed(vec![named("a"), named("b")]),
            ConfigRead::Listed(vec![]),
            ConfigRead::Listed(vec![named("c")]),
        ]),
        Ok(vec![named("a"), named("b"), named("c")])
    );
}

#[test]
fn the_first_failure_decides() {
    assert_eq!(
        join_configs(vec![
            ConfigRead::Listed(vec![named("a")]),
            ConfigRead::Unparsable,
            ConfigRead::Unreadable,
        ]),
        Err(LoadError::Unparsable(1))
    );
    assert_eq!(
        join_configs(vec![ConfigRead::Unreadable, ConfigRead::Unparsable]),
        Err(LoadError::Unreadable(0))
    );
}

#[test]
fn a_source_is_required() {
    assert!(require_source(true, true).is_ok());
    assert!(require_source(true, false).is_ok());
    assert!(require_source(false, true).is_ok());
    assert_eq!(
        require_source(false, false).unwrap_err().message(),
        "Either -p, -d, or --pidpair-dir must be specified"
    );
}

#[test]
fn where_log_messages_go() {
    let path = |directory: LogDirectory, file_name: Option<&str>| {
        Some(LogPath {
            directory,
            file_name: file_name.map(|n| n.to_string()),
        })
    };
    let file = |directory: &str, max_size_mb: u64| {
        Ok(LogTarget::File {
            directory: directory.to_string(),
            file_name: "x.log".to_string(),
            max_size_mb,
        })
    };
    let var = LogDirectory::Named("/var".to_string());
    assert_eq!(log_target(None, Some(3)), Ok(LogTarget::Terminal));
    assert_eq!(log_target(path(var.clone(), Some("x.log")), Some(3)), file("/var", 3));
    assert_eq!(log_target(path(var.clone(), Some("x.log")), None), file("/var", 10));
    assert_eq!(log_target(path(LogDirectory::Absent, Some("x.log")), None), file(".", 10));
    assert_eq!(
        log_target(path(LogDirectory::Undecodable, Some("x.log")), None),
        Err(LogPathError::InvalidDirectory)
    );
    assert_eq!(
        log_target(path(LogDirectory::Undecodable, None), None),
        Err(LogPathError::InvalidFile)
    );
    assert_eq!(log_target(path(var, None), None), Err(LogPathError::InvalidFile));
    assert_eq!(LogPathError::InvalidFile.message(), "Invalid log file path");
    assert_eq!(LogPathError::InvalidDirectory.message(), "Invalid log directory");
}
