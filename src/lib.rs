//! Persistence and timing logic of a terminal Pomodoro timer: the settings
//! and session records with their JSON file formats, the schema migration of
//! stored settings, and the work/break cycle state machine.

pub mod codec;
pub mod json;
pub mod migration;
pub mod session;
pub mod settings;
pub mod storage;
pub mod timers;

pub use json::JsonSerializable;
pub use migration::{
    find_settings_version, is_correct_version, migrate_0_1_fields, migrate_settings,
    version_from_group, MigrationError,
};
pub use session::{Session, SessionList};
pub use settings::{Notifications, Settings, SettingsError, SettingsLoad, SETTINGS_VERSION};
pub use storage::Storage;
pub use timers::{
    countdown_label, stats_breakdown, stats_remark, Cycle, CycleAction, CyclePhase, StatsRemark,
    Timer,
};
