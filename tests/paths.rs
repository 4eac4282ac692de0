use elearn::paths::{history_dir_path, history_name, history_path, history_root, test_data_path, test_name};

#[test]
fn dataset_file_path() {
    assert_eq!(test_data_path("1", "colours"), "/var/lifeich1/elearn/data/test/1/colours.ron");
}

#[test]
fn history_paths() {
    assert_eq!(history_root(), "/var/lifeich1/elearn/data/history");
    assert_eq!(history_dir_path("1", "n"), "/var/lifeich1/elearn/data/history/1/n");
    assert_eq!(history_path("1", "n", "2020-01-01_10h00m00s"), "/var/lifeich1/elearn/data/history/1/n/2020-01-01_10h00m00s.html");
}

#[test]
fn stored_names() {
    assert_eq!(history_name("a.html"), Some("a".to_string()));
    assert_eq!(history_name("a.ron"), None);
    assert_eq!(history_name(".html"), Some(String::new()));
    assert_eq!(test_name("colours.ron"), Some("colours".to_string()));
    assert_eq!(test_name("ron"), None);
}
