//! The settings, as the environment gives them.

use crate::text::{
    chars_of, decimal, digit, law_naturals_are_read_back, opt_str, opt_text, parse_u64, str_eq,
    u64_of,
};
use vstd::prelude::*;

verus! {

/// What can be set.
pub struct Settings {
    /// How many levels below its start a scan goes.
    pub scan_depth: usize,
    /// How many commits of a repository are read.
    pub commits_per_repo: usize,
    /// Seconds between refreshes; 0 where there are none of their own accord.
    pub refresh_interval_secs: u64,
    /// How many repositories are asked of a remote; 0 where all are.
    pub remote_target_limit: usize,
    /// The port that is listened on.
    pub port: u16,
}

/// What a variable sets: the number it holds, where that is at most `max`; else what
/// is set by default.
pub open spec fn setting(value: Option<Seq<char>>, max: int, default: int) -> int {
    match value {
        Some(text) => match u64_of(text) {
            Some(n) => if n <= max {
                n as int
            } else {
                default
            },
            None => default,
        },
        None => default,
    }
}

/// Reads a setting.
fn read_setting(value: Option<&str>, max: u64, default: u64) -> (out: u64)
    requires
        default <= max,
    ensures
        out == setting(opt_str(value), max as int, default as int),
        out <= max,
{
    match value {
        Some(text) => {
            let chars = chars_of(text);
            match parse_u64(chars.as_slice()) {
                Some(n) => if n <= max {
                    n
                } else {
                    default
                },
                None => default,
            }
        },
        None => default,
    }
}

/// The settings that the variables for depth, commits per repository, seconds between
/// refreshes, remote targets and port give. What is missing or no number is as by
/// default.
pub fn read_settings(
    depth: Option<&str>,
    commits: Option<&str>,
    interval: Option<&str>,
    targets: Option<&str>,
    port: Option<&str>,
) -> (out: Settings)
    ensures
        out.scan_depth == setting(opt_str(depth), usize::MAX as int, 4),
        out.commits_per_repo == setting(opt_str(commits), usize::MAX as int, 500),
        out.refresh_interval_secs == setting(opt_str(interval), u64::MAX as int, 150),
        out.remote_target_limit == setting(opt_str(targets), usize::MAX as int, 25),
        out.port == setting(opt_str(port), 65_535, 7_777),
{
    Settings {
        scan_depth: read_setting(depth, usize::MAX as u64, 4) as usize,
        commits_per_repo: read_setting(commits, usize::MAX as u64, 500) as usize,
        refresh_interval_secs: read_setting(interval, u64::MAX, 150),
        remote_target_limit: read_setting(targets, usize::MAX as u64, 25) as usize,
        port: read_setting(port, 65_535, 7_777) as u16,
    }
}

/// Whether a variable names an author: it is neither empty nor `all`.
pub open spec fn names_author(value: Option<Seq<char>>) -> bool {
    match value {
        Some(text) => text.len() > 0 && text != "all"@,
        None => false,
    }
}

/// The email that stands for "me", where the variable for it names one; else git has
/// to be asked.
pub fn author_setting(value: Option<&str>) -> (out: Option<String>)
    ensures
        opt_text(out) == (if names_author(opt_str(value)) {
            opt_str(value)
        } else {
            None
        }),
{
    match value {
        Some(text) => if chars_of(text).len() > 0 && !str_eq(text, "all") {
            Some(text.to_owned())
        } else {
            None
        },
        None => None,
    }
}

// ---------------------------------------------------------------------------
// Laws
// ---------------------------------------------------------------------------

/// A variable that holds a number sets it, where it is in range; a number out of range, a
/// text that is no number, and nothing at all leave what is set by default.
pub proof fn law_numbers_are_set(n: nat, text: Seq<char>, max: int, default: int)
    requires
        0 <= default <= max <= u64::MAX,
    ensures
        n <= max ==> setting(Some(decimal(n)), max, default) == n,
        max < n <= u64::MAX ==> setting(Some(decimal(n)), max, default) == default,
        text.len() == 0 ==> setting(Some(text), max, default) == default,
        (exists|i: int| 1 <= i < text.len() && !('0' <= #[trigger] text[i] <= '9')) ==> setting(
            Some(text),
            max,
            default,
        ) == default,
        setting(None, max, default) == default,
{
    law_naturals_are_read_back(n);
    if exists|i: int| 1 <= i < text.len() && !('0' <= #[trigger] text[i] <= '9') {
        let i = choose|i: int| 1 <= i < text.len() && !('0' <= #[trigger] text[i] <= '9');
        assert(!digit(text[i]));
        assert(text.skip(1)[i - 1] == text[i]);
        assert(!digit(text.skip(1)[i - 1]));
    }
}

/// A variable names an author where it holds something but the word for everyone.
pub proof fn law_authors_are_named(text: Seq<char>)
    ensures
        text.len() > 0 && text != "all"@ ==> names_author(Some(text)),
        !names_author(Some("all"@)),
        !names_author(Some(Seq::empty())),
        !names_author(None),
{
}

} // verus!
