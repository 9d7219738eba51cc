use tomato::Storage;

fn home() -> String {
    home::home_dir()
        .unwrap()
        .into_os_string()
        .into_string()
        .unwrap()
}

#[test]
fn test_storage_new_with_custom_folder() {
    let folder = Some("custom_folder".to_string());
    let path = "file.txt".to_string();
    let storage = Storage::new(folder.clone(), path.clone()).unwrap();

    let home = home();
    let expected_storage_file = format!("{}/{}/{}", home, "custom_folder", "file.txt");

    assert_eq!(storage.storage_file(), expected_storage_file);
    assert_eq!(storage.folder(), "custom_folder".to_string());
}

#[test]
fn test_storage_new_with_default_folder() {
    let folder = None;
    let path = "file.txt".to_string();
    let storage = Storage::new(folder, path.clone()).unwrap();

    let home = home();
    let expected_storage_file = format!("{}/{}/{}", home, ".tomato", "file.txt");

    assert_eq!(storage.storage_file(), expected_storage_file);
    assert_eq!(storage.folder(), ".tomato".to_string());
}

#[test]
fn test_storage_new_with_empty_path() {
    let folder = Some("custom_folder".to_string());
    let path = "".to_string();
    let storage = Storage::new(folder.clone(), path.clone()).unwrap();

    let home = home();
    let expected_storage_file = format!("{}/{}/{}", home, "custom_folder", "");

    assert_eq!(storage.storage_file(), expected_storage_file);
}

#[test]
fn storage_with_home_builds_paths() {
    let s = Storage::with_home("/home/ann", None, "sessions.json".to_string());
    assert_eq!(s.storage_file(), "/home/ann/.tomato/sessions.json");
    assert_eq!(s.folder(), ".tomato");
    assert_eq!(s.folder_path(), "/home/ann/.tomato");
    let c = Storage::with_home("/h", Some("x".to_string()), "f".to_string());
    assert_eq!(c.storage_file(), "/h/x/f");
    assert_eq!(c.folder_path(), "/h/x");
}
