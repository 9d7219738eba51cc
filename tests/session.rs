use chrono::{TimeZone, Utc};
use tomato::{JsonSerializable, Session, SessionList};

fn stamp(y: i32) -> i64 {
    Utc.with_ymd_and_hms(y, 1, 1, 0, 0, 0).single().unwrap().timestamp()
}

#[test]
fn test_session_new_creates_new_session() {
    let session1: Session = Session::new(Some(stamp(2025)), 25, 5);
    let session2: Session = Session {
        timestamp: stamp(2025),
        work_time: 25,
        break_time: 5,
    };

    assert_eq!(session1, session2);
}

#[test]
fn test_session_new_create_new_session_with_none() {
    let session1: Session = Session::new(None, 25, 5);
    let session2: Session = Session {
        timestamp: stamp(1970),
        work_time: 25,
        break_time: 5,
    };

    assert_eq!(session1, session2);
}

#[test]
fn test_session_new_not_equal() {
    let session1: Session = Session::new(None, 25, 5);
    let session2: Session = Session {
        timestamp: stamp(2025),
        work_time: 25,
        break_time: 5,
    };

    assert_ne!(session1, session2);
}

#[test]
fn test_session_clone_is_equal() {
    let session1 = Session::new(None, 5, 5);
    assert_eq!(session1, session1.clone());
}

#[test]
fn test_sessionlist_new_creates_new_session() {
    let session1 = Session::new(None, 25, 5);
    let session2 = Session::new(None, 40, 5);
    let session3 = Session::new(None, 10, 10);
    let sessions_new: SessionList = SessionList::new(Some(vec![session1, session2, session3]));

    assert_eq!(sessions_new.sessions(), &vec![session1, session2, session3]);
}

#[test]
fn test_sessionlist_new_creates_new_session_with_none() {
    let sessions = SessionList::new(None);
    assert_eq!(sessions.sessions(), &Vec::<Session>::new());
}

#[test]
fn test_sessionlist_not_equal() {
    let session1 = Session::new(None, 25, 5);
    let sessions1 = SessionList::new(None);
    let sessions2 = SessionList::new(Some(vec![session1]));

    assert_ne!(sessions1, sessions2);
}

#[test]
fn test_sessionlist_append_does_append() {
    let session = Session::new(None, 25, 5);
    let appended_session = Session::new(None, 5, 5);

    let mut sessions_append = SessionList::new(Some(vec![session.clone()]));
    sessions_append.append(appended_session.clone());

    let sessions_not_appended = SessionList::new(Some(vec![session, appended_session]));

    assert_eq!(sessions_append, sessions_not_appended);
    assert_ne!(
        sessions_append,
        SessionList::new(Some(vec![appended_session, session]))
    );
}

#[test]
fn test_sessionlist_get_total_work_minutes() {
    let session_list = SessionList::new(Some(vec![
        Session::new(None, 25, 5),
        Session::new(None, 35, 5),
        Session::new(None, 100, 0),
    ]));

    assert_eq!(session_list.total_work_minutes(), 160);
}

#[test]
fn total_work_minutes_of_empty_is_zero() {
    assert_eq!(SessionList::new(None).total_work_minutes(), 0);
}

#[test]
fn total_work_minutes_of_large_values() {
    let list = SessionList::new(Some(vec![
        Session::new(None, u32::MAX, 0),
        Session::new(None, u32::MAX, 0),
    ]));
    assert_eq!(list.total_work_minutes(), 2 * u32::MAX as u64);
}

#[test]
fn test_load_sessions() {
    let sessions = SessionList::new(Some(vec![
        Session::new(None, 25, 5),
        Session::new(None, 10, 5),
        Session::new(Some(stamp(2025)), 1, 1),
    ]));

    let stored = sessions.to_json();

    assert_eq!(SessionList::load_sessions(Some(stored)), sessions);
}

#[test]
fn test_load_sessions_no_file() {
    assert_eq!(SessionList::load_sessions(None), SessionList::new(None));
}

#[test]
fn load_sessions_corrupt_or_empty_gives_empty() {
    assert_eq!(SessionList::load_sessions(Some(String::new())), SessionList::new(None));
    assert_eq!(
        SessionList::load_sessions(Some("{\"sessions\":[".to_string())),
        SessionList::new(None)
    );
    assert_eq!(
        SessionList::load_sessions(Some("ERR".to_string())),
        SessionList::new(None)
    );
}

#[test]
fn session_json_text_is_exact() {
    let s = Session::new(Some(stamp(2025)), 25, 5);
    assert_eq!(
        s.to_json(),
        "{\"timestamp\":1735689600,\"work_time\":25,\"break_time\":5}"
    );
    let neg = Session::new(Some(-42), 0, 4294967295);
    assert_eq!(
        neg.to_json(),
        "{\"timestamp\":-42,\"work_time\":0,\"break_time\":4294967295}"
    );
    assert_eq!(Session::from_json(&neg.to_json()), Some(neg));
    let min = Session::new(Some(i64::MIN), 1, 2);
    assert_eq!(Session::from_json(&min.to_json()), Some(min));
}

#[test]
fn session_list_json_text_is_exact() {
    assert_eq!(SessionList::new(None).to_json(), "{\"sessions\":[]}");
    let list = SessionList::new(Some(vec![Session::new(None, 25, 5), Session::new(Some(60), 1, 2)]));
    assert_eq!(
        list.to_json(),
        "{\"sessions\":[{\"timestamp\":0,\"work_time\":25,\"break_time\":5},{\"timestamp\":60,\"work_time\":1,\"break_time\":2}]}"
    );
    let v: serde_json::Value = serde_json::from_str(&list.to_json()).unwrap();
    assert_eq!(v["sessions"][1]["timestamp"].as_i64().unwrap(), 60);
    assert_eq!(SessionList::from_json(&list.to_json()), Some(list));
}

#[test]
fn session_from_json_refuses_other_text() {
    assert!(Session::from_json("{\"timestamp\":-0,\"work_time\":1,\"break_time\":2}").is_none());
    assert!(Session::from_json("{\"timestamp\":0,\"work_time\":4294967296,\"break_time\":2}").is_none());
    assert!(SessionList::from_json("{\"sessions\":[,]}").is_none());
    assert!(SessionList::from_json(
        "{\"sessions\":[{\"timestamp\":0,\"work_time\":1,\"break_time\":2},]}"
    )
    .is_none());
}
