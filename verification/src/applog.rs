//! A plain log file next to the app, so a user whose app "just closes" has
//! something to send: what is logged, how a line looks, and where the file goes.

use vstd::prelude::*;

use crate::calendar::{civil_date, Date};
use crate::numerals::{padded, push_padded};
use crate::paths::{join_path, joined, parent, parent_of, PathStyle};
use crate::text::{chars_of, contains, find_in, stands_at, starts_with, texts};

verus! {

/// The log file's name.
pub const FILE_NAME: &'static str = "transcribe.log";

/// Above this size the old log is moved aside at startup.
pub const ROTATE_BYTES: u64 = 2_097_152;

/// How much an event matters.
#[derive(Debug, Clone, Copy, PartialEq, Eq, Structural)]
pub enum Level {
    Error,
    Warn,
    Info,
    Debug,
    Trace,
}

impl Level {
    /// The level's name, with blanks up to five characters.
    pub open spec fn tag(self) -> Seq<char> {
        match self {
            Level::Error => "ERROR"@,
            Level::Warn => "WARN "@,
            Level::Info => "INFO "@,
            Level::Debug => "DEBUG"@,
            Level::Trace => "TRACE"@,
        }
    }
}

/// Whether an event is logged: our own modules at info; whisper.cpp, ggml, wgpu,
/// winit and the rest only when something is wrong.
pub fn enabled(target: &str, level: Level) -> (r: bool)
    ensures
        r == match level {
            Level::Error => true,
            Level::Warn => true,
            Level::Info => starts_with(target@, "transcribe"@),
            Level::Debug => false,
            Level::Trace => false,
        },
{
    let chars = chars_of(target);
    let own = chars_of("transcribe");
    match level {
        Level::Error => true,
        Level::Warn => true,
        Level::Info => stands_at(&chars, &own, 0),
        Level::Debug => false,
        Level::Trace => false,
    }
}

/// A line of the log.
pub fn log_line(stamp: &str, level: Level, target: &str, message: &str) -> (r: String)
    ensures
        r@ == stamp@ + " "@ + level.tag() + " ["@ + target@ + "] "@ + message@ + "\n"@,
{
    let mut out = stamp.to_owned();
    out.push_str(" ");
    out.push_str(
        match level {
            Level::Error => "ERROR",
            Level::Warn => "WARN ",
            Level::Info => "INFO ",
            Level::Debug => "DEBUG",
            Level::Trace => "TRACE",
        },
    );
    out.push_str(" [");
    out.push_str(target);
    out.push_str("] ");
    out.push_str(message);
    out.push_str("\n");
    out
}

/// A moment as `YYYY-MM-DD HH:MM:SS.mmm`.
pub open spec fn moment(date: Date, seconds: int, millis: int) -> Seq<char> {
    padded(date.year as nat, 4) + "-"@ + padded(date.month as nat, 2) + "-"@ + padded(
        date.day as nat,
        2,
    ) + " "@ + padded((seconds / 3600) as nat, 2) + ":"@ + padded(((seconds / 60) % 60) as nat, 2)
        + ":"@ + padded((seconds % 60) as nat, 2) + "."@ + padded(millis as nat, 3)
}

/// A moment `secs` seconds and `millis` milliseconds after the start of 1970, as
/// `YYYY-MM-DD HH:MM:SS.mmm` in UTC.
pub fn timestamp(secs: u64, millis: u32) -> (r: String)
    requires
        secs <= i64::MAX,
        millis < 1000,
    ensures
        exists|date: Date| #[trigger]
            date.valid() && date.number() == secs / 86_400 && r@ == moment(
                date,
                (secs % 86_400) as int,
                millis as int,
            ),
{
    let days: u64 = secs / 86_400;
    let rest: u64 = secs % 86_400;
    let date = civil_date(days as i64);
    let mut out = String::new();
    push_padded(&mut out, date.year as u64, 4);
    out.push_str("-");
    push_padded(&mut out, date.month as u64, 2);
    out.push_str("-");
    push_padded(&mut out, date.day as u64, 2);
    out.push_str(" ");
    push_padded(&mut out, rest / 3600, 2);
    out.push_str(":");
    push_padded(&mut out, (rest / 60) % 60, 2);
    out.push_str(":");
    push_padded(&mut out, rest % 60, 2);
    out.push_str(".");
    push_padded(&mut out, millis as u64, 3);
    proof {
        assert(out@ =~= moment(date, rest as int, millis as int));
        assert(date.valid());
    }
    out
}

/// Whether a log file of this size is moved aside.
pub fn needs_rotation(bytes: u64) -> (r: bool)
    ensures
        r == (bytes > ROTATE_BYTES),
{
    bytes > ROTATE_BYTES
}

/// Where the log goes.
pub open spec fn log_place(
    exe: Option<Seq<char>>,
    user_dir: Seq<char>,
    style: PathStyle,
) -> Seq<char> {
    match exe {
        Some(path) => match parent_of(path, style) {
            Some(dir) => if contains(path, "/Contents/MacOS/"@) {
                joined(user_dir, FILE_NAME@, style)
            } else {
                joined(dir, FILE_NAME@, style)
            },
            None => joined(user_dir, FILE_NAME@, style),
        },
        None => joined(user_dir, FILE_NAME@, style),
    }
}

/// Where the log goes: next to the executable, except inside a macOS bundle
/// (which shouldn't be modified after signing) where it is the per-user
/// directory instead.
pub fn default_path(exe: Option<&str>, user_dir: &str, style: PathStyle) -> (r: String)
    ensures
        r@ == log_place(
            match exe {
                Some(path) => Some(path@),
                None => None,
            },
            user_dir@,
            style,
        ),
{
    match exe {
        Some(path) => {
            let chars = chars_of(path);
            let bundle = chars_of("/Contents/MacOS/");
            match parent(path, style) {
                Some(dir) => if find_in(&chars, &bundle).is_some() {
                    join_path(user_dir, FILE_NAME, style)
                } else {
                    join_path(dir.as_str(), FILE_NAME, style)
                },
                None => join_path(user_dir, FILE_NAME, style),
            }
        },
        None => join_path(user_dir, FILE_NAME, style),
    }
}

/// The places to try for the log, in order: the default, the per-user directory,
/// the temp directory.
pub fn log_candidates(
    exe: Option<&str>,
    user_dir: &str,
    temp_dir: &str,
    style: PathStyle,
) -> (r: Vec<String>)
    ensures
        texts(r@) == seq![
            log_place(
                match exe {
                    Some(path) => Some(path@),
                    None => None,
                },
                user_dir@,
                style,
            ),
            joined(user_dir@, FILE_NAME@, style),
            joined(temp_dir@, FILE_NAME@, style),
        ],
{
    let mut out: Vec<String> = Vec::new();
    out.push(default_path(exe, user_dir, style));
    out.push(join_path(user_dir, FILE_NAME, style));
    out.push(join_path(temp_dir, FILE_NAME, style));
    proof {
        assert(texts(out@) =~= seq![out@[0]@, out@[1]@, out@[2]@]);
    }
    out
}

/// A moment is told by its date and by hours, minutes and seconds that add up to
/// the time of day.
pub proof fn law_the_time_of_day_adds_up(date: Date, seconds: int, millis: int) -> (r: (
    nat,
    nat,
    nat,
))
    requires
        0 <= seconds < 86_400,
        0 <= millis < 1_000,
        date.valid(),
    ensures
        r.0 * 3_600 + r.1 * 60 + r.2 == seconds,
        r.0 < 24 && r.1 < 60 && r.2 < 60,
        moment(date, seconds, millis) == padded(date.year as nat, 4) + "-"@ + padded(
            date.month as nat,
            2,
        ) + "-"@ + padded(date.day as nat, 2) + " "@ + padded(r.0, 2) + ":"@ + padded(r.1, 2)
            + ":"@ + padded(r.2, 2) + "."@ + padded(millis as nat, 3),
{
    assert(seconds / 60 / 60 == seconds / 3600);
    assert(seconds == (seconds / 60) * 60 + seconds % 60);
    assert(seconds / 60 == (seconds / 60 / 60) * 60 + (seconds / 60) % 60);
    ((seconds / 3600) as nat, ((seconds / 60) % 60) as nat, (seconds % 60) as nat)
}

/// The log stands beside the executable, unless that is inside a bundle or is not
/// known; then it stands in the user's directory.
pub proof fn law_bundles_are_left_alone(exe: Seq<char>, user_dir: Seq<char>, style: PathStyle)
    ensures
        contains(exe, "/Contents/MacOS/"@) ==> log_place(Some(exe), user_dir, style) == joined(
            user_dir,
            "transcribe.log"@,
            style,
        ),
        log_place(None, user_dir, style) == joined(user_dir, "transcribe.log"@, style),
        !contains(exe, "/Contents/MacOS/"@) && parent_of(exe, style) is Some ==> log_place(
            Some(exe),
            user_dir,
            style,
        ) == joined(parent_of(exe, style)->Some_0, "transcribe.log"@, style),
{
}

} // verus!
