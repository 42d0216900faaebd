use type3arabi::cli::arg_value;
use type3arabi::paths::{
    config_path, data_file_path, error_log_path, install_dir, is_app_container, join, logs_dir,
    user_dir, user_store_dir, windows_install_dir, windows_user_dir, DATA_FILE_NAME,
};

#[test]
fn test_paths_sane() {
    let idir = install_dir();
    assert!(idir.contains("Type3arabi"));
    let udir = user_dir();
    assert!(udir.contains("Type3arabi"));
    let data_path = data_file_path();
    assert!(data_path.ends_with(DATA_FILE_NAME));
}

#[test]
fn unix_layout() {
    assert_eq!(install_dir(), "/usr/share/Type3arabi");
    assert_eq!(data_file_path(), "/usr/share/Type3arabi/type3arabi.dat");
    assert_eq!(user_store_dir(), "/tmp/Type3arabi/user");
    assert_eq!(logs_dir(), "/tmp/Type3arabi/logs");
    assert_eq!(error_log_path(), "/tmp/Type3arabi/logs/errors.log");
    assert_eq!(config_path(), "/tmp/Type3arabi/config.toml");
    assert!(!is_app_container());
}

#[test]
fn windows_directories_follow_the_environment() {
    assert_eq!(
        windows_install_dir(Some(r"C:\Program Files"), Some(r"C:\Program Files (x86)")),
        r"C:\Program Files\Type3arabi"
    );
    assert_eq!(windows_install_dir(None, Some(r"D:\Apps\")), r"D:\Apps\Type3arabi");
    assert_eq!(windows_install_dir(None, None), r"C:\Program Files\Type3arabi");
    assert_eq!(
        windows_user_dir(Some(r"C:\Users\a\AppData\Local"), None),
        r"C:\Users\a\AppData\Local\Type3arabi"
    );
    assert_eq!(
        windows_user_dir(None, Some(r"C:\Users\a")),
        r"C:\Users\a\AppData\Local\Type3arabi"
    );
    assert_eq!(windows_user_dir(None, None), r"C:\Type3arabi");
}

#[test]
fn join_adds_one_separator() {
    assert_eq!(join("/tmp/", "x", false), "/tmp/x");
    assert_eq!(join("", "x", false), "x");
    assert_eq!(join("C:", "x", true), "C:x");
    assert_eq!(join(r"C:\a", "x", true), r"C:\a\x");
}

#[test]
fn history_lives_in_the_user_dir() {
    assert_eq!(type3arabi::paths::history_path(), "/tmp/Type3arabi/transfers.jsonl");
}

#[test]
fn flag_values() {
    let args: Vec<String> = ["eval", "--dialect", "LEV", "--k", "5", "--dialect", "EGY"]
        .iter()
        .map(|s| s.to_string())
        .collect();
    assert_eq!(arg_value(&args, "--dialect"), Some("LEV".to_string()));
    assert_eq!(arg_value(&args, "--k"), Some("5".to_string()));
    assert_eq!(arg_value(&args, "--beam"), None);
    let last: Vec<String> = vec!["--k".to_string()];
    assert_eq!(arg_value(&last, "--k"), None);
}
