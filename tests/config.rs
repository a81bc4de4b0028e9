use binge::config::install_path;

#[test]
fn configured_directory_wins() {
    let dirs = vec!["/home/u/.local/bin".to_string()];
    assert_eq!(install_path(Some("/opt/bin".to_string()), &dirs).as_deref(), Some("/opt/bin"));
}

#[test]
fn local_bin_from_search_path() {
    let dirs = vec![
        "/usr/bin".to_string(),
        "/home/u/x.local/bin".to_string(),
        "/home/u/.local/bin/".to_string(),
        "/home/v/.local/bin".to_string(),
    ];
    assert_eq!(install_path(None, &dirs).as_deref(), Some("/home/u/.local/bin/"));
    assert_eq!(install_path(None, &vec!["/usr/bin".to_string()]), None);
}
