//! Migration of stored settings from older schema versions. The version and
//! the fields of an older text are found by pattern matching on the raw text,
//! since the current decoder refuses older layouts outright.

use vstd::prelude::*;
use crate::codec::{digits_u64, parse_u64, same_text};
use crate::settings::{is_default_notifications, Notifications, Settings, SETTINGS_VERSION};

verus! {

/// Finds the schema version: its value is the first group.
pub const VERSION_PATTERN: &'static str = "\"version\":\"([^\"]+)\"";

/// Finds the work duration of a version-0.1 text.
pub const WORK_TIME_PATTERN: &'static str = "\"work_time\":(\\d+)";

/// Finds the break duration of a version-0.1 text.
pub const BREAK_TIME_PATTERN: &'static str = "\"break_time\":(\\d+)";

/// What `detect_version` reports when a text holds no version.
pub const NO_VERSION: &'static str = "ERR";

/// The text of the first capture group of the leftmost match of the regular
/// expression `pattern` in `text`; `None` where the pattern does not compile,
/// does not match, or its first group takes no part in the match.
pub uninterp spec fn regex_first_group(pattern: Seq<char>, text: Seq<char>) -> Option<Seq<char>>;

/// Relies on `regex::Regex::new`, `Regex::captures` and `Captures::get`: the
/// first group of the leftmost match, which depends on the pattern and the
/// text alone.
#[verifier::external_body]
fn first_group(pattern: &str, text: &str) -> (r: Option<String>)
    ensures
        r matches Some(g) ==> regex_first_group(pattern@, text@) == Some(g@),
        r is None ==> regex_first_group(pattern@, text@) is None,
{
    let re = match regex::Regex::new(pattern) {
        Ok(re) => re,
        Err(_) => return None,
    };
    match re.captures(text) {
        Some(caps) => match caps.get(1) {
            Some(m) => Some(m.as_str().to_string()),
            None => None,
        },
        None => None,
    }
}

/// Why a stored settings text could not be migrated.
#[derive(Debug, Clone, PartialEq)]
pub enum MigrationError {
    /// The text names a version that no migration starts from.
    UnknownVersion(String),
    /// The text is of version 0.1, but its durations cannot be read.
    UnreadableFields,
}

/// The version a settings text names, given what the version pattern found.
pub open spec fn version_of_group(group: Option<Seq<char>>) -> Seq<char> {
    match group {
        Some(v) => v,
        None => NO_VERSION@,
    }
}

/// The version a settings text names, or the `ERR` sentinel.
pub open spec fn detected_version(text: Seq<char>) -> Seq<char> {
    version_of_group(regex_first_group(VERSION_PATTERN@, text))
}

/// The durations of a version-0.1 text, given what the work and break
/// patterns found.
pub open spec fn fields_0_1(work: Option<Seq<char>>, brk: Option<Seq<char>>) -> Option<(u64, u64)> {
    match (work, brk) {
        (Some(w), Some(b)) => match (digits_u64(w), digits_u64(b)) {
            (Some(x), Some(y)) => Some((x, y)),
            _ => None,
        },
        _ => None,
    }
}

/// `s` is the current-version record made from a version-0.1 text with these
/// durations.
pub open spec fn is_migrated(s: Settings, work: u64, brk: u64) -> bool {
    &&& s.version@ == SETTINGS_VERSION@
    &&& s.work_time == work
    &&& s.break_time == brk
    &&& is_default_notifications(s.notification)
}

/// What migrating a version-0.1 text with the given captured durations gives.
pub open spec fn migration_0_1_result(
    r: Result<Settings, MigrationError>,
    work: Option<Seq<char>>,
    brk: Option<Seq<char>>,
) -> bool {
    match fields_0_1(work, brk) {
        Some((w, b)) => r matches Ok(s) && is_migrated(s, w, b),
        None => r == Err::<Settings, MigrationError>(MigrationError::UnreadableFields),
    }
}

/// What migrating a settings text gives.
pub open spec fn migration_result(r: Result<Settings, MigrationError>, text: Seq<char>) -> bool {
    if detected_version(text) == "0.1"@ {
        migration_0_1_result(
            r,
            regex_first_group(WORK_TIME_PATTERN@, text),
            regex_first_group(BREAK_TIME_PATTERN@, text),
        )
    } else {
        r matches Err(MigrationError::UnknownVersion(v)) && v@ == detected_version(text)
    }
}

/// The version named by what the version pattern found: the group itself,
/// or the `ERR` sentinel where it found nothing.
pub fn version_from_group(group: Option<String>) -> (r: String)
    ensures
        r@ == version_of_group(
            match group {
                Some(g) => Some(g@),
                None => None,
            },
        ),
{
    match group {
        Some(g) => g,
        None => NO_VERSION.to_owned(),
    }
}

/// The schema version that a raw settings text names, found by pattern
/// matching rather than decoding; `ERR` where it names none.
pub fn find_settings_version(file_contents: &str) -> (r: String)
    ensures
        r@ == detected_version(file_contents@),
{
    version_from_group(first_group(VERSION_PATTERN, file_contents))
}

/// Whether a raw settings text names the given version.
pub fn is_correct_version(file_contents: &str, settings_version: &str) -> (r: bool)
    ensures
        r == (detected_version(file_contents@) == settings_version@),
{
    let found = find_settings_version(file_contents);
    same_text(found.as_str(), settings_version)
}

/// The current-version record made from the durations that the patterns
/// found in a version-0.1 text, with default notifications.
pub fn migrate_0_1_fields(work: Option<String>, brk: Option<String>) -> (r: Result<
    Settings,
    MigrationError,
>)
    ensures
        migration_0_1_result(
            r,
            match work {
                Some(w) => Some(w@),
                None => None,
            },
            match brk {
                Some(b) => Some(b@),
                None => None,
            },
        ),
{
    let (w, b) = match (work, brk) {
        (Some(w), Some(b)) => (w, b),
        _ => return Err(MigrationError::UnreadableFields),
    };
    let work_time = match parse_u64(w.as_str()) {
        Some(v) => v,
        None => return Err(MigrationError::UnreadableFields),
    };
    let break_time = match parse_u64(b.as_str()) {
        Some(v) => v,
        None => return Err(MigrationError::UnreadableFields),
    };
    Ok(Settings::new(work_time, break_time, Notifications::default()))
}

/// Migrates a version-0.1 settings text to the current schema.
fn migrate_0_1(settings: &str) -> (r: Result<Settings, MigrationError>)
    ensures
        migration_0_1_result(
            r,
            regex_first_group(WORK_TIME_PATTERN@, settings@),
            regex_first_group(BREAK_TIME_PATTERN@, settings@),
        ),
{
    let work = first_group(WORK_TIME_PATTERN, settings);
    let brk = first_group(BREAK_TIME_PATTERN, settings);
    migrate_0_1_fields(work, brk)
}

/// Migrates a stored settings text of an older schema version to the current
/// one. Only version 0.1 has a migration; any other version, and a text with
/// no version, is refused.
pub fn migrate_settings(file_contents: &str) -> (r: Result<Settings, MigrationError>)
    ensures
        migration_result(r, file_contents@),
{
    let version = find_settings_version(file_contents);
    if same_text(version.as_str(), "0.1") {
        migrate_0_1(file_contents)
    } else {
        Err(MigrationError::UnknownVersion(version))
    }
}

} // verus!
