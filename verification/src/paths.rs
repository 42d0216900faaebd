//! File and directory names, and where they live: the per-user directory and the install
//! directory, on Windows (from the environment the caller reads) and elsewhere.
use vstd::prelude::*;

use crate::text::{chars_of, push_char, push_str};

verus! {

pub const APP_DIR_NAME: &'static str = "Type3arabi";
pub const DATA_FILE_NAME: &'static str = "type3arabi.dat";
pub const CONFIG_FILE_NAME: &'static str = "config.toml";
pub const STATE_FILE_NAME: &'static str = "state.toml";
pub const USER_SUBDIR: &'static str = "user";
pub const JOURNAL_FILE_NAME: &'static str = "journal.t3j";
pub const SNAPSHOT_FILE_NAME: &'static str = "snapshot.t3u";
pub const LOG_SUBDIR: &'static str = "logs";
pub const ERROR_LOG_NAME: &'static str = "errors.log";
/// One JSON object per export or import (counts, file names and times only).
pub const HISTORY_FILE_NAME: &'static str = "transfers.jsonl";
/// The history keeps the newest entries, up to this many.
pub const HISTORY_MAX: usize = 200;
pub const ERROR_LOG_MAX_BYTES: u64 = 262144;
/// Named mutex for journal compaction.
pub const COMPACTION_MUTEX: &'static str = "Local\\Type3arabi.UserStore";

/// A path component that adds to a path (no root, no drive).
pub open spec fn relative(part: Seq<char>) -> bool {
    &&& part.len() > 0
    &&& part[0] != '/'
    &&& part[0] != '\\'
    &&& !(part.len() >= 2 && part[1] == ':')
}

/// `base` is just a drive, such as `C:`.
pub open spec fn drive_only(base: Seq<char>) -> bool {
    base.len() == 2 && base[1] == ':'
}

/// A separator goes between `base` and the next component: `base` is not empty, does not end in
/// a separator, and (on Windows) is not just a drive.
pub open spec fn needs_sep(base: Seq<char>, windows: bool) -> bool {
    &&& base.len() > 0
    &&& base.last() != '/'
    &&& !(windows && base.last() == '\\')
    &&& !(windows && drive_only(base))
}

/// `base` joined with the relative component `part`, the way `PathBuf::push` does it.
pub open spec fn joined(base: Seq<char>, part: Seq<char>, windows: bool) -> Seq<char> {
    if needs_sep(base, windows) {
        base + seq![if windows { '\\' } else { '/' }] + part
    } else {
        base + part
    }
}

/// Joins the relative component `part` to `base` with the separator of the platform.
pub fn join(base: &str, part: &str, windows: bool) -> (r: String)
    requires
        relative(part@),
    ensures
        r@ == joined(base@, part@, windows),
{
    let b = chars_of(base);
    let n = b.len();
    let mut r = String::new();
    push_str(&mut r, base);
    let sep = if n == 0 {
        false
    } else if b[n - 1] == '/' {
        false
    } else if windows && b[n - 1] == '\\' {
        false
    } else if windows && n == 2 && b[1] == ':' {
        false
    } else {
        true
    };
    if sep {
        if windows {
            push_char(&mut r, '\\');
        } else {
            push_char(&mut r, '/');
        }
    }
    push_str(&mut r, part);
    proof {
        if n > 0 {
            assert(b@.last() == b@[n - 1]);
        }
    }
    r
}

/// The install directory outside Windows: `/usr/share/Type3arabi`.
pub fn install_dir() -> (r: String)
    ensures
        r@ == joined("/usr/share"@, APP_DIR_NAME@, false),
{
    proof {
        reveal_strlit("Type3arabi");
    }
    join("/usr/share", APP_DIR_NAME, false)
}

/// The per-user directory outside Windows: `/tmp/Type3arabi`.
pub fn user_dir() -> (r: String)
    ensures
        r@ == joined("/tmp"@, APP_DIR_NAME@, false),
{
    proof {
        reveal_strlit("Type3arabi");
    }
    join("/tmp", APP_DIR_NAME, false)
}

/// The data file in the install directory.
pub fn data_file_path() -> (r: String)
    ensures
        r@ == joined(joined("/usr/share"@, APP_DIR_NAME@, false), DATA_FILE_NAME@, false),
{
    proof {
        reveal_strlit("type3arabi.dat");
    }
    let d = install_dir();
    join(d.as_str(), DATA_FILE_NAME, false)
}

/// The learning store directory.
pub fn user_store_dir() -> (r: String)
    ensures
        r@ == joined(joined("/tmp"@, APP_DIR_NAME@, false), USER_SUBDIR@, false),
{
    proof {
        reveal_strlit("user");
    }
    let d = user_dir();
    join(d.as_str(), USER_SUBDIR, false)
}

/// The log directory.
pub fn logs_dir() -> (r: String)
    ensures
        r@ == joined(joined("/tmp"@, APP_DIR_NAME@, false), LOG_SUBDIR@, false),
{
    proof {
        reveal_strlit("logs");
    }
    let d = user_dir();
    join(d.as_str(), LOG_SUBDIR, false)
}

/// The error log.
pub fn error_log_path() -> (r: String)
    ensures
        r@ == joined(
            joined(joined("/tmp"@, APP_DIR_NAME@, false), LOG_SUBDIR@, false),
            ERROR_LOG_NAME@,
            false,
        ),
{
    proof {
        reveal_strlit("errors.log");
    }
    let d = logs_dir();
    join(d.as_str(), ERROR_LOG_NAME, false)
}

/// The settings file.
pub fn config_path() -> (r: String)
    ensures
        r@ == joined(joined("/tmp"@, APP_DIR_NAME@, false), CONFIG_FILE_NAME@, false),
{
    proof {
        reveal_strlit("config.toml");
    }
    let d = user_dir();
    join(d.as_str(), CONFIG_FILE_NAME, false)
}

/// The history of learning exports and imports made on this machine.
pub fn history_path() -> (r: String)
    ensures
        r@ == joined(joined("/tmp"@, APP_DIR_NAME@, false), HISTORY_FILE_NAME@, false),
{
    proof {
        reveal_strlit("transfers.jsonl");
    }
    let d = user_dir();
    join(d.as_str(), HISTORY_FILE_NAME, false)
}

/// Outside Windows a process never runs in an app container.
pub fn is_app_container() -> (r: bool)
    ensures
        !r,
{
    false
}

/// The Windows install directory, from `ProgramW6432` and `ProgramFiles` (when set): the 64-bit
/// Program Files for both 64- and 32-bit processes.
pub fn windows_install_dir(program_w6432: Option<&str>, program_files: Option<&str>) -> (r: String)
    ensures
        r@ == match (program_w6432, program_files) {
            (Some(p), _) => joined(p@, APP_DIR_NAME@, true),
            (None, Some(p)) => joined(p@, APP_DIR_NAME@, true),
            (None, None) => joined("C:\\Program Files"@, APP_DIR_NAME@, true),
        },
{
    proof {
        reveal_strlit("Type3arabi");
    }
    match program_w6432 {
        Some(p) => join(p, APP_DIR_NAME, true),
        None => match program_files {
            Some(p) => join(p, APP_DIR_NAME, true),
            None => join("C:\\Program Files", APP_DIR_NAME, true),
        },
    }
}

/// The Windows per-user directory, from `LOCALAPPDATA` or else `USERPROFILE` (when set).
pub fn windows_user_dir(local_app_data: Option<&str>, user_profile: Option<&str>) -> (r: String)
    ensures
        r@ == match (local_app_data, user_profile) {
            (Some(l), _) => joined(l@, APP_DIR_NAME@, true),
            (None, Some(p)) => joined(
                joined(joined(p@, "AppData"@, true), "Local"@, true),
                APP_DIR_NAME@,
                true,
            ),
            (None, None) => joined("C:\\"@, APP_DIR_NAME@, true),
        },
{
    proof {
        reveal_strlit("Type3arabi");
        reveal_strlit("AppData");
        reveal_strlit("Local");
    }
    match local_app_data {
        Some(l) => join(l, APP_DIR_NAME, true),
        None => match user_profile {
            Some(p) => {
                let a = join(p, "AppData", true);
                let b = join(a.as_str(), "Local", true);
                join(b.as_str(), APP_DIR_NAME, true)
            },
            None => join("C:\\", APP_DIR_NAME, true),
        },
    }
}

} // verus!
