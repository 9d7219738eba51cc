use tomato::settings::{DEFAULT_BREAK_MSG, DEFAULT_WORK_MSG};
use tomato::{JsonSerializable, Notifications, Settings, SettingsError, SettingsLoad};

fn defaults() -> Settings {
    Settings::new(25, 5, Notifications::default())
}

#[test]
fn serialize_settings_to_json_and_back() {
    let notification = Notifications::default();
    let settings = Settings::new(25, 5, notification);

    let json_str = settings.to_json();

    let deserialized_settings = Settings::from_json(&json_str).expect("Invalid JSON");

    assert_eq!(settings, deserialized_settings);
}

#[test]
fn settings_json_text_is_exact() {
    let s = defaults();
    assert_eq!(
        s.to_json(),
        "{\"version\":\"0.2\",\"work_time\":25,\"break_time\":5,\"notification\":{\"enable\":true,\"work_msg\":\"Good job your work is done. Take a break\",\"break_msg\":\"Break is done. Get back to work\"}}"
    );
}

#[test]
fn settings_json_matches_serde_json() {
    let mut s = Settings::new(
        0,
        u64::MAX,
        Notifications {
            enable: false,
            work_msg: "tab\there \"quoted\" back\\slash é\u{1}\u{1f}\u{7f}".to_string(),
            break_msg: "line\nbreak\r\u{8}\u{c}".to_string(),
        },
    );
    s.version = "weird \"v\"".to_string();
    let text = s.to_json();
    let v: serde_json::Value = serde_json::from_str(&text).unwrap();
    assert_eq!(v["version"].as_str().unwrap(), s.version);
    assert_eq!(v["work_time"].as_u64().unwrap(), 0);
    assert_eq!(v["break_time"].as_u64().unwrap(), u64::MAX);
    assert_eq!(v["notification"]["enable"].as_bool().unwrap(), false);
    assert_eq!(v["notification"]["work_msg"].as_str().unwrap(), s.notification.work_msg);
    assert_eq!(v["notification"]["break_msg"].as_str().unwrap(), s.notification.break_msg);
    assert_eq!(serde_json::to_string(&v).unwrap().len(), text.len());
    assert!(text.contains(&serde_json::to_string(&s.notification.work_msg).unwrap()));
    assert!(text.contains(&serde_json::to_string(&s.notification.break_msg).unwrap()));
    assert_eq!(Settings::from_json(&text).unwrap(), s);
}

#[test]
fn settings_from_json_refuses_other_text() {
    let good = defaults().to_json();
    assert!(Settings::from_json("").is_none());
    assert!(Settings::from_json("{}").is_none());
    assert!(Settings::from_json(&format!("{} ", good)).is_none());
    assert!(Settings::from_json(&good.replace("25", "025")).is_none());
    assert!(Settings::from_json(&good.replace("true", "1")).is_none());
    assert!(Settings::from_json("{\"version\":\"0.1\",\"work_time\":25,\"break_time\":5}").is_none());
}

#[test]
fn notifications_default_values() {
    let n = Notifications::default();
    assert!(n.enable);
    assert_eq!(n.work_msg, DEFAULT_WORK_MSG);
    assert_eq!(n.break_msg, DEFAULT_BREAK_MSG);
    assert_eq!(n.work_msg, "Good job your work is done. Take a break");
    assert_eq!(n.break_msg, "Break is done. Get back to work");
}

#[test]
fn settings_new_uses_current_version() {
    let s = Settings::new(40, 10, Notifications::default());
    assert_eq!(s.version, "0.2");
    assert_eq!(s.work_time, 40);
    assert_eq!(s.break_time, 10);
}

#[test]
fn load_settings_without_file_creates_defaults() {
    let r = Settings::load_settings(None).unwrap();
    assert_eq!(r, SettingsLoad::Created(defaults()));
    assert!(r.needs_write());
}

#[test]
fn load_settings_empty_gives_defaults() {
    assert_eq!(
        Settings::load_settings(Some(String::new())).unwrap(),
        SettingsLoad::Defaulted(defaults())
    );
    let r = Settings::load_settings(Some("{}".to_string())).unwrap();
    assert_eq!(r, SettingsLoad::Defaulted(defaults()));
    assert!(!r.needs_write());
}

#[test]
fn load_settings_current_text() {
    let s = Settings::new(50, 10, Notifications::default());
    let r = Settings::load_settings(Some(s.to_json())).unwrap();
    assert_eq!(r, SettingsLoad::Current(s.clone()));
    assert_eq!(r.settings(), &s);
    assert!(!r.needs_write());
}

#[test]
fn load_settings_migrates_0_1_then_reloads_as_current() {
    let old = "{\"version\":\"0.1\",\"work_time\":25,\"break_time\":5}".to_string();
    let r = Settings::load_settings(Some(old)).unwrap();
    let migrated = Settings::new(25, 5, Notifications::default());
    assert_eq!(r, SettingsLoad::Migrated(migrated.clone()));
    assert!(r.needs_write());
    let written = r.settings().to_json();
    assert_eq!(
        Settings::load_settings(Some(written)).unwrap(),
        SettingsLoad::Current(migrated)
    );
}

#[test]
fn load_settings_refusals() {
    assert_eq!(
        Settings::load_settings(Some("{\"version\":\"0.2\",\"work_time\":25}".to_string())),
        Err(SettingsError::Unparseable)
    );
    assert_eq!(
        Settings::load_settings(Some("{\"version\":\"0.9\"}".to_string())),
        Err(SettingsError::UnknownVersion("0.9".to_string()))
    );
    assert_eq!(
        Settings::load_settings(Some("garbage".to_string())),
        Err(SettingsError::UnknownVersion("ERR".to_string()))
    );
    assert_eq!(
        Settings::load_settings(Some("{\"version\":\"0.1\"}".to_string())),
        Err(SettingsError::Unmigratable)
    );
}
