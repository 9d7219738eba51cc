use tomato::settings::{DEFAULT_BREAK_MSG, DEFAULT_WORK_MSG};
use tomato::{
    find_settings_version, is_correct_version, migrate_0_1_fields, migrate_settings,
    version_from_group, MigrationError, Notifications, Settings, SETTINGS_VERSION,
};

#[test]
fn test_find_settings_version_should_find_correct_settings() {
    let found_settings = "{\"version\":\"0.1\",\"work_time\":25,\"break_time\":5}";

    assert_eq!(find_settings_version(found_settings), "0.1");
}

#[test]
fn test_migrate_settings_migrates_correctly() {
    let old = "{\"version\":\"0.1\",\"work_time\":25,\"break_time\":5}";
    let migrated = migrate_settings(old).unwrap();
    assert_eq!(migrated, Settings::new(25, 5, Notifications::default()));
    assert_eq!(migrated.version, SETTINGS_VERSION);
}

#[test]
fn test_is_correct_version_is_correct() {
    let found_settings = "{\"version\":\"0.1\",\"work_time\":25,\"break_time\":5}";
    assert!(is_correct_version(found_settings, "0.1"));
    assert!(!is_correct_version(found_settings, "0.2"));

    let found_settings = "{\"version\":\"0.5\",\"work_time\":25,\"break_time\":5}";
    assert!(is_correct_version(found_settings, "0.5"));
    assert!(!is_correct_version(found_settings, "0.123"));

    let found_settings = "{\"version\":\"2025.1.105\", osidhf aposudhfapoidf hasdfio nadaå vasoåiv j\"work_time\":25,\"break_time\":5}";
    assert!(is_correct_version(found_settings, "2025.1.105"));
    assert!(!is_correct_version(found_settings, "0.123"));
}

#[test]
fn find_settings_version_without_version_is_err() {
    assert_eq!(find_settings_version("{\"work_time\":25,\"break_time\":5}"), "ERR");
    assert_eq!(find_settings_version(""), "ERR");
    assert_eq!(find_settings_version("{\"version\":\"\"}"), "ERR");
}

#[test]
fn find_settings_version_takes_the_first() {
    let text = "{\"version\":\"0.1\",\"version\":\"0.2\"}";
    assert_eq!(find_settings_version(text), "0.1");
}

#[test]
fn version_from_group_uses_sentinel() {
    assert_eq!(version_from_group(None), "ERR");
    assert_eq!(version_from_group(Some("0.7".to_string())), "0.7");
}

#[test]
fn migrate_0_1_fields_reads_durations() {
    let s = migrate_0_1_fields(Some("40".to_string()), Some("10".to_string())).unwrap();
    assert_eq!(s.version, "0.2");
    assert_eq!(s.work_time, 40);
    assert_eq!(s.break_time, 10);
    assert!(s.notification.enable);
    assert_eq!(s.notification.work_msg, DEFAULT_WORK_MSG);
    assert_eq!(s.notification.break_msg, DEFAULT_BREAK_MSG);
}

#[test]
fn migrate_0_1_fields_refuses_missing_or_overflowing() {
    assert_eq!(
        migrate_0_1_fields(None, Some("5".to_string())),
        Err(MigrationError::UnreadableFields)
    );
    assert_eq!(
        migrate_0_1_fields(Some("25".to_string()), None),
        Err(MigrationError::UnreadableFields)
    );
    assert_eq!(
        migrate_0_1_fields(Some("99999999999999999999".to_string()), Some("5".to_string())),
        Err(MigrationError::UnreadableFields)
    );
    assert_eq!(
        migrate_0_1_fields(Some("18446744073709551615".to_string()), Some("0".to_string()))
            .unwrap()
            .work_time,
        u64::MAX
    );
}

#[test]
fn migrate_settings_refuses_unknown_version() {
    let text = "{\"version\":\"0.5\",\"work_time\":25,\"break_time\":5}";
    assert_eq!(
        migrate_settings(text),
        Err(MigrationError::UnknownVersion("0.5".to_string()))
    );
    assert_eq!(
        migrate_settings("no version here"),
        Err(MigrationError::UnknownVersion("ERR".to_string()))
    );
}

#[test]
fn migrate_settings_refuses_0_1_without_durations() {
    let text = "{\"version\":\"0.1\",\"break_time\":5}";
    assert_eq!(migrate_settings(text), Err(MigrationError::UnreadableFields));
}
