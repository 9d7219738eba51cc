//! The stored settings: durations and notification preferences, with the
//! schema version they were written under.

use vstd::prelude::*;
use crate::codec::{
    bool_text, decimal, lemma_bool_at_unique, lemma_natural_at_unique, lemma_quoted_at_unique,
    lemma_starts_at_join, lemma_starts_at_split, natural_at, same_text, chars_of, expect, parse_bool, parse_natural, parse_quoted, push_bool, push_decimal, push_quoted, quoted, starts_at,
};
use crate::json::JsonSerializable;
use crate::migration::{detected_version, find_settings_version, migrate_settings, migration_result, MigrationError};

verus! {

/// The schema version that this library writes and reads.
pub const SETTINGS_VERSION: &'static str = "0.2";

/// The default message shown when a work interval ends.
pub const DEFAULT_WORK_MSG: &'static str = "Good job your work is done. Take a break";

/// The default message shown when a break ends.
pub const DEFAULT_BREAK_MSG: &'static str = "Break is done. Get back to work";

/// The default work interval, in minutes.
pub const DEFAULT_WORK_TIME: u64 = 25;

/// The default break interval, in minutes.
pub const DEFAULT_BREAK_TIME: u64 = 5;

/// Notification preferences.
#[derive(Debug, PartialEq, Clone)]
pub struct Notifications {
    pub enable: bool,
    pub work_msg: String,
    pub break_msg: String,
}

/// The settings kept between runs.
#[derive(Debug, PartialEq, Clone)]
pub struct Settings {
    /// The schema version the record was written under.
    pub version: String,
    pub work_time: u64,
    pub break_time: u64,
    pub notification: Notifications,
}

/// Two notification records hold the same values.
pub open spec fn same_notifications(a: Notifications, b: Notifications) -> bool {
    &&& a.enable == b.enable
    &&& a.work_msg@ == b.work_msg@
    &&& a.break_msg@ == b.break_msg@
}

/// Two settings records hold the same values.
pub open spec fn same_settings(a: Settings, b: Settings) -> bool {
    &&& a.version@ == b.version@
    &&& a.work_time == b.work_time
    &&& a.break_time == b.break_time
    &&& same_notifications(a.notification, b.notification)
}

/// The notification record that a first run starts with.
pub open spec fn is_default_notifications(n: Notifications) -> bool {
    &&& n.enable
    &&& n.work_msg@ == DEFAULT_WORK_MSG@
    &&& n.break_msg@ == DEFAULT_BREAK_MSG@
}

/// The settings record that a first run starts with.
pub open spec fn is_default_settings(s: Settings) -> bool {
    &&& s.version@ == SETTINGS_VERSION@
    &&& s.work_time == DEFAULT_WORK_TIME
    &&& s.break_time == DEFAULT_BREAK_TIME
    &&& is_default_notifications(s.notification)
}

/// The JSON text of a settings record: its fields in declaration order,
/// without white space.
pub open spec fn settings_text(s: Settings) -> Seq<char> {
    "{\"version\":"@ + (quoted(s.version@) + (",\"work_time\":"@ + (decimal(s.work_time as nat) + (
    ",\"break_time\":"@ + (decimal(s.break_time as nat) + (",\"notification\":{\"enable\":"@ + (
    bool_text(s.notification.enable) + (",\"work_msg\":"@ + (quoted(s.notification.work_msg@) + (
    ",\"break_msg\":"@ + (quoted(s.notification.break_msg@) + "}}"@)))))))))))
}

impl Default for Notifications {
    fn default() -> (r: Notifications)
        ensures
            is_default_notifications(r),
    {
        Notifications {
            enable: true,
            work_msg: DEFAULT_WORK_MSG.to_string(),
            break_msg: DEFAULT_BREAK_MSG.to_string(),
        }
    }
}

impl Settings {
    /// A settings record of the current schema version.
    pub fn new(work_time: u64, break_time: u64, notification: Notifications) -> (r: Settings)
        ensures
            r.version@ == SETTINGS_VERSION@,
            r.work_time == work_time,
            r.break_time == break_time,
            r.notification == notification,
    {
        Settings { version: SETTINGS_VERSION.to_string(), work_time, break_time, notification }
    }

    /// The settings record that a first run starts with.
    pub fn default_settings() -> (r: Settings)
        ensures
            is_default_settings(r),
    {
        Settings::new(DEFAULT_WORK_TIME, DEFAULT_BREAK_TIME, Notifications::default())
    }
}

/// Each field's text of `s` stands at its place in `t`, and `t` ends with them.
pub open spec fn settings_layout(t: Seq<char>, s: Settings) -> bool {
    let p1 = "{\"version\":"@.len() as int;
    let p2 = p1 + quoted(s.version@).len();
    let p3 = p2 + ",\"work_time\":"@.len();
    let p4 = p3 + decimal(s.work_time as nat).len();
    let p5 = p4 + ",\"break_time\":"@.len();
    let p6 = p5 + decimal(s.break_time as nat).len();
    let p7 = p6 + ",\"notification\":{\"enable\":"@.len();
    let p8 = p7 + bool_text(s.notification.enable).len();
    let p9 = p8 + ",\"work_msg\":"@.len();
    let p10 = p9 + quoted(s.notification.work_msg@).len();
    let p11 = p10 + ",\"break_msg\":"@.len();
    let p12 = p11 + quoted(s.notification.break_msg@).len();
    &&& starts_at(t, 0, "{\"version\":"@)
    &&& starts_at(t, p1, quoted(s.version@))
    &&& starts_at(t, p2, ",\"work_time\":"@)
    &&& natural_at(t, p3, s.work_time as nat, p4)
    &&& starts_at(t, p4, ",\"break_time\":"@)
    &&& natural_at(t, p5, s.break_time as nat, p6)
    &&& starts_at(t, p6, ",\"notification\":{\"enable\":"@)
    &&& starts_at(t, p7, bool_text(s.notification.enable))
    &&& starts_at(t, p8, ",\"work_msg\":"@)
    &&& starts_at(t, p9, quoted(s.notification.work_msg@))
    &&& starts_at(t, p10, ",\"break_msg\":"@)
    &&& starts_at(t, p11, quoted(s.notification.break_msg@))
    &&& starts_at(t, p12, "}}"@)
    &&& p12 + 2 == t.len()
}

/// Where `t` is the text of `s`, each field's text stands at its place in `t`.
proof fn lemma_settings_layout(t: Seq<char>, s: Settings)
    requires
        t == settings_text(s),
    ensures
        settings_layout(t, s),
{
    reveal_strlit(",\"break_time\":");
    reveal_strlit(",\"notification\":{\"enable\":");
    reveal_strlit("}}");
    let l1 = "{\"version\":"@;
    let q1 = quoted(s.version@);
    let l2 = ",\"work_time\":"@;
    let d1 = decimal(s.work_time as nat);
    let l3 = ",\"break_time\":"@;
    let d2 = decimal(s.break_time as nat);
    let l4 = ",\"notification\":{\"enable\":"@;
    let b1 = bool_text(s.notification.enable);
    let l5 = ",\"work_msg\":"@;
    let q2 = quoted(s.notification.work_msg@);
    let l6 = ",\"break_msg\":"@;
    let q3 = quoted(s.notification.break_msg@);
    let l7 = "}}"@;
    let r12 = q3 + l7;
    let r11 = l6 + r12;
    let r10 = q2 + r11;
    let r9 = l5 + r10;
    let r8 = b1 + r9;
    let r7 = l4 + r8;
    let r6 = d2 + r7;
    let r5 = l3 + r6;
    let r4 = d1 + r5;
    let r3 = l2 + r4;
    let r2 = q1 + r3;
    assert(t.subrange(0, t.len() as int) =~= t);
    lemma_starts_at_split(t, 0, l1, r2);
    lemma_starts_at_split(t, l1.len() as int, q1, r3);
    let p2 = (l1.len() + q1.len()) as int;
    lemma_starts_at_split(t, p2, l2, r4);
    let p3 = p2 + l2.len() as int;
    lemma_starts_at_split(t, p3, d1, r5);
    let p4 = p3 + d1.len() as int;
    lemma_starts_at_split(t, p4, l3, r6);
    let p5 = p4 + l3.len() as int;
    lemma_starts_at_split(t, p5, d2, r7);
    let p6 = p5 + d2.len() as int;
    lemma_starts_at_split(t, p6, l4, r8);
    let p7 = p6 + l4.len() as int;
    lemma_starts_at_split(t, p7, b1, r9);
    let p8 = p7 + b1.len() as int;
    lemma_starts_at_split(t, p8, l5, r10);
    let p9 = p8 + l5.len() as int;
    lemma_starts_at_split(t, p9, q2, r11);
    let p10 = p9 + q2.len() as int;
    lemma_starts_at_split(t, p10, l6, r12);
    let p11 = p10 + l6.len() as int;
    lemma_starts_at_split(t, p11, q3, l7);
    assert(t[p4] == t.subrange(p4, p4 + l3.len())[0]);
    assert(t[p6] == t.subrange(p6, p6 + l4.len())[0]);
}

/// Where each field's text of `s` stands at its place in `t` and `t` ends
/// with them, `t` is the text of `s`.
proof fn lemma_settings_from_layout(t: Seq<char>, s: Settings)
    requires
        settings_layout(t, s),
    ensures
        t == settings_text(s),
{
    let l1 = "{\"version\":"@;
    let q1 = quoted(s.version@);
    let l2 = ",\"work_time\":"@;
    let d1 = decimal(s.work_time as nat);
    let l3 = ",\"break_time\":"@;
    let d2 = decimal(s.break_time as nat);
    let l4 = ",\"notification\":{\"enable\":"@;
    let b1 = bool_text(s.notification.enable);
    let l5 = ",\"work_msg\":"@;
    let q2 = quoted(s.notification.work_msg@);
    let l6 = ",\"break_msg\":"@;
    let q3 = quoted(s.notification.break_msg@);
    let l7 = "}}"@;
    reveal_strlit("}}");
    let p1 = l1.len() as int;
    let p2 = p1 + q1.len() as int;
    let p3 = p2 + l2.len() as int;
    let p4 = p3 + d1.len() as int;
    let p5 = p4 + l3.len() as int;
    let p6 = p5 + d2.len() as int;
    let p7 = p6 + l4.len() as int;
    let p8 = p7 + b1.len() as int;
    let p9 = p8 + l5.len() as int;
    let p10 = p9 + q2.len() as int;
    let p11 = p10 + l6.len() as int;
    let p12 = p11 + q3.len() as int;
    let r12 = q3 + l7;
    lemma_starts_at_join(t, p11, q3, l7);
    let r11 = l6 + r12;
    lemma_starts_at_join(t, p10, l6, r12);
    let r10 = q2 + r11;
    lemma_starts_at_join(t, p9, q2, r11);
    let r9 = l5 + r10;
    lemma_starts_at_join(t, p8, l5, r10);
    let r8 = b1 + r9;
    lemma_starts_at_join(t, p7, b1, r9);
    let r7 = l4 + r8;
    lemma_starts_at_join(t, p6, l4, r8);
    let r6 = d2 + r7;
    lemma_starts_at_join(t, p5, d2, r7);
    let r5 = l3 + r6;
    lemma_starts_at_join(t, p4, l3, r6);
    let r4 = d1 + r5;
    lemma_starts_at_join(t, p3, d1, r5);
    let r3 = l2 + r4;
    lemma_starts_at_join(t, p2, l2, r4);
    let r2 = q1 + r3;
    lemma_starts_at_join(t, p1, q1, r3);
    lemma_starts_at_join(t, 0, l1, r2);
    assert(t =~= t.subrange(0, t.len() as int));
}

/// Reading back the JSON text of a settings record gives a record with the
/// same values: no record with other values has the same text.
pub proof fn lemma_settings_round_trip(s: Settings)
    ensures
        forall|d: Settings| #[trigger] settings_text(d) == settings_text(s) ==> same_settings(d, s),
{
    assert forall|d: Settings| #[trigger] settings_text(d) == settings_text(s) implies same_settings(
        d,
        s,
    ) by {
        lemma_settings_text_injective(d, s);
    }
}

/// Two settings records with the same JSON text hold the same values.
proof fn lemma_settings_text_injective(a: Settings, b: Settings)
    requires
        settings_text(a) == settings_text(b),
    ensures
        same_settings(a, b),
{
    let t = settings_text(a);
    lemma_settings_layout(t, a);
    lemma_settings_layout(t, b);
    let p1 = "{\"version\":"@.len() as int;
    lemma_quoted_at_unique(t, p1, a.version@, b.version@);
    let p3 = p1 + quoted(a.version@).len() + ",\"work_time\":"@.len();
    let p4a = p3 + decimal(a.work_time as nat).len();
    let p4b = p3 + decimal(b.work_time as nat).len();
    lemma_natural_at_unique(t, p3, a.work_time as nat, p4a, b.work_time as nat, p4b);
    let p5 = p4a + ",\"break_time\":"@.len();
    let p6a = p5 + decimal(a.break_time as nat).len();
    let p6b = p5 + decimal(b.break_time as nat).len();
    lemma_natural_at_unique(t, p5, a.break_time as nat, p6a, b.break_time as nat, p6b);
    let p7 = p6a + ",\"notification\":{\"enable\":"@.len();
    lemma_bool_at_unique(t, p7, a.notification.enable, b.notification.enable);
    let p9 = p7 + bool_text(a.notification.enable).len() + ",\"work_msg\":"@.len();
    lemma_quoted_at_unique(t, p9, a.notification.work_msg@, b.notification.work_msg@);
    let p11 = p9 + quoted(a.notification.work_msg@).len() + ",\"break_msg\":"@.len();
    lemma_quoted_at_unique(t, p11, a.notification.break_msg@, b.notification.break_msg@);
}

impl JsonSerializable for Settings {
    open spec fn json_text(&self) -> Seq<char> {
        settings_text(*self)
    }

    fn to_json(&self) -> (r: String) {
        let mut out = String::new();
        out.append("{\"version\":");
        push_quoted(&mut out, self.version.as_str());
        out.append(",\"work_time\":");
        push_decimal(&mut out, self.work_time);
        out.append(",\"break_time\":");
        push_decimal(&mut out, self.break_time);
        out.append(",\"notification\":{\"enable\":");
        push_bool(&mut out, self.notification.enable);
        out.append(",\"work_msg\":");
        push_quoted(&mut out, self.notification.work_msg.as_str());
        out.append(",\"break_msg\":");
        push_quoted(&mut out, self.notification.break_msg.as_str());
        out.append("}}");
        assert(out@ =~= settings_text(*self));
        out
    }

    fn from_json(text: &str) -> (r: Option<Settings>) {
        let t = chars_of(text);
        let ghost w: Option<Settings> = if exists|x: Settings| settings_text(x) == t@ {
            Some(choose|x: Settings| settings_text(x) == t@)
        } else {
            None
        };
        assert(w matches Some(x) ==> settings_layout(t@, x)) by {
            if w is Some {
                lemma_settings_layout(t@, w.unwrap());
            }
        }
        assert(w is None ==> forall|x: Settings| #[trigger] settings_text(x) != text@);
        let p1 = match expect(&t, 0, "{\"version\":") {
            Some(p) => p,
            None => return None,
        };
        let (version, p2) = match parse_quoted(&t, p1) {
            Some(v) => v,
            None => return None,
        };
        let p3 = match expect(&t, p2, ",\"work_time\":") {
            Some(p) => p,
            None => return None,
        };
        let (work_time, p4) = match parse_natural(&t, p3) {
            Some(v) => v,
            None => return None,
        };
        let p5 = match expect(&t, p4, ",\"break_time\":") {
            Some(p) => p,
            None => return None,
        };
        let (break_time, p6) = match parse_natural(&t, p5) {
            Some(v) => v,
            None => return None,
        };
        let p7 = match expect(&t, p6, ",\"notification\":{\"enable\":") {
            Some(p) => p,
            None => return None,
        };
        let (enable, p8) = match parse_bool(&t, p7) {
            Some(v) => v,
            None => return None,
        };
        let p9 = match expect(&t, p8, ",\"work_msg\":") {
            Some(p) => p,
            None => return None,
        };
        let (work_msg, p10) = match parse_quoted(&t, p9) {
            Some(v) => v,
            None => return None,
        };
        let p11 = match expect(&t, p10, ",\"break_msg\":") {
            Some(p) => p,
            None => return None,
        };
        let (break_msg, p12) = match parse_quoted(&t, p11) {
            Some(v) => v,
            None => return None,
        };
        let p13 = match expect(&t, p12, "}}") {
            Some(p) => p,
            None => return None,
        };
        if p13 != t.len() {
            return None;
        }
        let s = Settings {
            version,
            work_time,
            break_time,
            notification: Notifications { enable, work_msg, break_msg },
        };
        proof {
            reveal_strlit("}}");
            lemma_settings_from_layout(t@, s);
        }
        Some(s)
    }
}

/// A settings record as loaded, with how it was obtained.
#[derive(Debug, Clone, PartialEq)]
pub enum SettingsLoad {
    /// No stored text: the defaults, which are to be written out.
    Created(Settings),
    /// The stored text was empty or `{}`: the defaults.
    Defaulted(Settings),
    /// The stored text is a record of the current version.
    Current(Settings),
    /// The stored text was of an older version: the migrated record, which is
    /// to be written out in place of the old text.
    Migrated(Settings),
}

/// Why stored settings could not be loaded.
#[derive(Debug, Clone, PartialEq)]
pub enum SettingsError {
    /// The text names the current version but is not a settings record.
    Unparseable,
    /// The text names a version that no migration starts from.
    UnknownVersion(String),
    /// The text is of an older version whose fields cannot be read.
    Unmigratable,
}

impl SettingsLoad {
    /// The loaded record.
    pub fn settings(&self) -> (r: &Settings)
        ensures
            r == (match self {
                SettingsLoad::Created(s) => s,
                SettingsLoad::Defaulted(s) => s,
                SettingsLoad::Current(s) => s,
                SettingsLoad::Migrated(s) => s,
            }),
    {
        match self {
            SettingsLoad::Created(s) => s,
            SettingsLoad::Defaulted(s) => s,
            SettingsLoad::Current(s) => s,
            SettingsLoad::Migrated(s) => s,
        }
    }

    /// Whether the record is to be written to storage.
    pub fn needs_write(&self) -> (r: bool)
        ensures
            r == (self is Created || self is Migrated),
    {
        match self {
            SettingsLoad::Created(_) => true,
            SettingsLoad::Migrated(_) => true,
            _ => false,
        }
    }
}

/// Some current-version record has the text `t`.
pub open spec fn is_current_text(t: Seq<char>) -> bool {
    exists|x: Settings| #[trigger] settings_text(x) == t && x.version@ == SETTINGS_VERSION@
}

/// What loading from a stored text that is neither empty, `{}`, nor a
/// current-version record gives: a refusal where it names the current
/// version, else the outcome of migration.
pub open spec fn fallback_result(r: Result<SettingsLoad, SettingsError>, t: Seq<char>) -> bool {
    if detected_version(t) == SETTINGS_VERSION@ {
        r == Err::<SettingsLoad, SettingsError>(SettingsError::Unparseable)
    } else {
        exists|m: Result<Settings, MigrationError>|
            migration_result(m, t) && match m {
                Ok(s) => r == Ok::<SettingsLoad, SettingsError>(SettingsLoad::Migrated(s)),
                Err(MigrationError::UnknownVersion(v)) => r matches Err(
                    SettingsError::UnknownVersion(u),
                ) && u@ == v@,
                Err(MigrationError::UnreadableFields) => r == Err::<SettingsLoad, SettingsError>(
                    SettingsError::Unmigratable,
                ),
            }
    }
}

impl Settings {
    /// Loads the settings from their stored text (`None` where none could be
    /// read). No text gives the defaults, to be written out; an empty text or
    /// `{}` gives the defaults; the text of a current-version record gives
    /// that record; a text of an older version is migrated. A text that names
    /// the current version but is not a record, and one that cannot be
    /// migrated, are refused.
    pub fn load_settings(stored: Option<String>) -> (r: Result<SettingsLoad, SettingsError>)
        ensures
            stored is None ==> (r matches Ok(SettingsLoad::Created(s)) && is_default_settings(s)),
            stored matches Some(c) ==> (if c@ == ""@ || c@ == "{}"@ {
                r matches Ok(SettingsLoad::Defaulted(s)) && is_default_settings(s)
            } else if is_current_text(c@) {
                r matches Ok(SettingsLoad::Current(s)) && settings_text(s) == c@
            } else {
                fallback_result(r, c@)
            }),
    {
        let c = match stored {
            None => return Ok(SettingsLoad::Created(Settings::default_settings())),
            Some(c) => c,
        };
        if same_text(c.as_str(), "") || same_text(c.as_str(), "{}") {
            return Ok(SettingsLoad::Defaulted(Settings::default_settings()));
        }
        let decoded = Settings::from_json(c.as_str());
        if let Some(s) = decoded {
            if same_text(s.version.as_str(), SETTINGS_VERSION) {
                return Ok(SettingsLoad::Current(s));
            }
        }
        assert(!is_current_text(c@)) by {
            if is_current_text(c@) {
                let x = choose|x: Settings|
                    #[trigger] settings_text(x) == c@ && x.version@ == SETTINGS_VERSION@;
                assert(x.json_text() == c@);
                if decoded is Some {
                    lemma_settings_text_injective(x, decoded.unwrap());
                }
            }
        }
        let version = find_settings_version(c.as_str());
        if same_text(version.as_str(), SETTINGS_VERSION) {
            return Err(SettingsError::Unparseable);
        }
        let m = migrate_settings(c.as_str());
        let r = match m {
            Ok(s) => Ok(SettingsLoad::Migrated(s)),
            Err(MigrationError::UnknownVersion(v)) => Err(SettingsError::UnknownVersion(v)),
            Err(MigrationError::UnreadableFields) => Err(SettingsError::Unmigratable),
        };
        assert(migration_result(m, c@));
        r
    }
}

/// A current-version record, once written, reads back as a current-version
/// record with the same values, so it is not migrated again.
pub proof fn lemma_current_settings_reload(s: Settings)
    requires
        s.version@ == SETTINGS_VERSION@,
    ensures
        settings_text(s) != ""@,
        settings_text(s) != "{}"@,
        is_current_text(settings_text(s)),
        forall|x: Settings| #[trigger] settings_text(x) == settings_text(s) ==> same_settings(x, s),
{
    reveal_strlit("");
    reveal_strlit("{}");
    reveal_strlit("{\"version\":");
    let t = settings_text(s);
    assert(t.len() > 2);
    assert(t[1] == '"');
    assert forall|x: Settings| #[trigger] settings_text(x) == settings_text(s) implies same_settings(
        x,
        s,
    ) by {
        lemma_settings_text_injective(x, s);
    }
}

} // verus!
