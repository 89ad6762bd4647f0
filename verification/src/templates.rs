//! How numbers, times and names are written on the pages.

use crate::clock::{date_pattern, format_utc, minute_pattern, now, utc_formatted};
use crate::commits::GhHealth;
use crate::db::Repo;
use crate::paths::{
    canonical, law_below_is_deeper, law_path_leads_itself, path_behind, path_starts_with, strip_base,
};
use crate::text::{
    chars_of, decimal, decimal_int, decimal_string, digit_char, push_decimal, push_int,
};
use vstd::prelude::*;
use vstd::string::StringExecFns;

verus! {

// ---------------------------------------------------------------------------
// Counts
// ---------------------------------------------------------------------------

/// A quotient rounded to the nearest integer, and to the even one of two as near.
pub open spec fn half_even(num: nat, den: nat) -> nat {
    let (q, r) = (num / den, num % den);
    if 2 * r < den || (2 * r == den && q % 2 == 0) {
        q
    } else {
        q + 1
    }
}

/// The unit in the last place of an integer as a double: the least power of two, from
/// `q` on, of which the integer holds less than 2^53.
pub open spec fn grain(n: nat, q: nat) -> nat
    decreases n - q,
{
    if q == 0 || n < q * 0x20_0000_0000_0000 {
        q
    } else {
        grain(n, 2 * q)
    }
}

/// The double nearest to an integer.
pub open spec fn whole_double(n: nat) -> nat {
    half_even(n, grain(n, 1)) * grain(n, 1)
}

/// The scale of a quotient that is not less than one, as a double: the greatest power
/// of two, from `p` down, with which it stays below 2^53.
pub open spec fn scale(num: nat, den: nat, p: nat) -> nat
    decreases p,
{
    if p <= 1 || num * p < den * 0x20_0000_0000_0000 {
        p
    } else {
        scale(num, den, p / 2)
    }
}

/// The double nearest to a quotient that is not less than one, as a numerator and a
/// power of two.
pub open spec fn quotient_double(num: nat, den: nat) -> (nat, nat) {
    let p = scale(num, den, 0x10_0000_0000_0000);
    (half_even(num * p, den), p)
}

/// The tenths of the double that dividing an integer by another gives.
pub open spec fn tenths(n: nat, den: nat) -> nat {
    let (m, p) = quotient_double(whole_double(n), den);
    half_even(10 * m, p)
}

/// Tenths as a decimal with one digit behind the point.
pub open spec fn one_place(t: nat) -> Seq<char> {
    decimal(t / 10) + seq!['.', digit_char(t % 10)]
}

/// A count in compact form: exact below a thousand, then in thousands and in millions
/// with one digit behind the point. The digits are those of the quotient as a double.
pub open spec fn compact(n: int) -> Seq<char> {
    if n < 0 {
        decimal(0)
    } else if n < 1_000 {
        decimal(n as nat)
    } else if n < 1_000_000 {
        one_place(tenths(n as nat, 1_000)) + seq!['k']
    } else {
        one_place(tenths(n as nat, 1_000_000)) + seq!['M']
    }
}

/// Rounds a quotient.
fn rounded(num: u128, den: u128) -> (out: u128)
    requires
        0 < den <= 0x8000_0000_0000_0000_0000_0000_0000_0000,
        num < 0x8000_0000_0000_0000_0000_0000_0000_0000,
    ensures
        out == half_even(num as nat, den as nat),
        num as int / den as int <= out <= num as int / den as int + 1,
{
    let q: u128 = num / den;
    let r: u128 = num % den;
    assert(q <= num) by (nonlinear_arith)
        requires
            q == num / den,
            den > 0,
    ;
    if r < den - r || (r == den - r && q % 2 == 0) {
        q
    } else {
        q + 1
    }
}

/// The double nearest to an integer.
fn nearest_whole(n: u64) -> (out: u128)
    requires
        1_000 <= n < 0x8000_0000_0000_0000,
    ensures
        out == whole_double(n as nat),
        out <= 0x1_0000_0000_0000_0000,
{
    let mut q: u128 = 1;
    while n as u128 >= q * 0x20_0000_0000_0000
        invariant
            1 <= q <= 0x800,
            n < 0x8000_0000_0000_0000,
            grain(n as nat, 1) == grain(n as nat, q as nat),
        decreases 0x800 - q,
    {
        q = 2 * q;
    }
    let m: u128 = rounded(n as u128, q);
    proof {
        let d = n as int / q as int;
        assert(d < 0x20_0000_0000_0000) by (nonlinear_arith)
            requires
                d == n as int / q as int,
                n < q * 0x20_0000_0000_0000,
                q >= 1,
        ;
        assert(m * q <= 0x1_0000_0000_0000_0000) by (nonlinear_arith)
            requires
                m <= 0x20_0000_0000_0000,
                q <= 0x800,
        ;
    }
    m * q
}

/// The tenths of the double that dividing an integer gives.
fn count_tenths(n: u64, den: u128) -> (out: u64)
    requires
        1_000 <= n < 0x8000_0000_0000_0000,
        1_000 <= den <= 1_000_000,
    ensures
        out == tenths(n as nat, den as nat),
{
    let num: u128 = nearest_whole(n);
    let mut p: u128 = 0x10_0000_0000_0000;
    assert(num * p <= 0x10_0000_0000_0000_0000_0000_0000_0000) by (nonlinear_arith)
        requires
            num <= 0x1_0000_0000_0000_0000,
            p == 0x10_0000_0000_0000,
    ;
    while p > 1 && num * p >= den * 0x20_0000_0000_0000
        invariant
            1 <= p <= 0x10_0000_0000_0000,
            num <= 0x1_0000_0000_0000_0000,
            num * p <= 0x10_0000_0000_0000_0000_0000_0000_0000,
            1_000 <= den <= 1_000_000,
            scale(num as nat, den as nat, 0x10_0000_0000_0000) == scale(
                num as nat,
                den as nat,
                p as nat,
            ),
        decreases p,
    {
        assert(num * (p / 2) <= num * p) by (nonlinear_arith)
            requires
                p >= 1,
                num >= 0,
        ;
        p = p / 2;
    }
    let m: u128 = rounded(num * p, den);
    let ghost product = num * p;
    assert(1_000 * m <= product + 1_000) by (nonlinear_arith)
        requires
            m <= product / (den as int) + 1,
            den >= 1_000,
            product >= 0,
    ;
    let t: u128 = rounded(10 * m, p);
    assert(t <= num / 100 + 20) by (nonlinear_arith)
        requires
            1_000 * m <= num * p + 1_000,
            t <= (10 * m) / (p as int) + 1,
            p >= 1,
            num >= 0,
    ;
    t as u64
}

/// Appends tenths as a decimal.
fn push_tenths(out: &mut String, t: u64)
    ensures
        final(out)@ == old(out)@ + one_place(t as nat),
{
    let ghost before = out@;
    push_decimal(out, t / 10);
    out.push('.');
    let ghost pointed = out@;
    push_decimal(out, t % 10);
    assert(decimal((t % 10) as nat) =~= seq![digit_char((t % 10) as nat)]);
    assert(out@ =~= before + one_place(t as nat));
}

/// A count in compact form, for a pill. What is negative counts as zero.
pub fn compact_count(n: i64) -> (out: String)
    ensures
        out@ == compact(n as int),
{
    if n < 0 {
        return decimal_string(0);
    }
    let n: u64 = n as u64;
    if n < 1_000 {
        return decimal_string(n);
    }
    let mut out = String::new();
    if n < 1_000_000 {
        push_tenths(&mut out, count_tenths(n, 1_000));
        out.push('k');
        assert(out@ =~= compact(n as int));
    } else {
        push_tenths(&mut out, count_tenths(n, 1_000_000));
        out.push('M');
        assert(out@ =~= compact(n as int));
    }
    out
}

/// A scale that had to come down came down no further than it had to.
proof fn lemma_scale(num: nat, den: nat, p: nat)
    requires
        p >= 1,
    ensures
        1 <= scale(num, den, p) <= p,
        scale(num, den, p) == p || num * (2 * scale(num, den, p) + 1) >= den
            * 0x20_0000_0000_0000,
    decreases p,
{
    if p > 1 && num * p >= den * 0x20_0000_0000_0000 {
        let h = p / 2;
        lemma_scale(num, den, h);
        if scale(num, den, h) == h {
            assert(num * (2 * h + 1) >= num * p) by (nonlinear_arith)
                requires
                    2 * h + 1 >= p,
                    num >= 0,
            ;
        }
    }
}

/// A quotient that is rounded is less than half off.
proof fn lemma_half_even(num: nat, den: nat)
    requires
        den > 0,
    ensures
        2 * (den * half_even(num, den)) <= 2 * num + den,
        2 * num <= 2 * (den * half_even(num, den)) + den,
{
    let (q, r) = (num / den, num % den);
    assert(num == den * q + r) by (nonlinear_arith)
        requires
            q == num / den,
            r == num % den,
            den > 0,
    ;
    assert(r < den) by (nonlinear_arith)
        requires
            r == num % den,
            den > 0,
    ;
    assert(den * (q + 1) == den * q + den) by (nonlinear_arith);
}

/// A quotient that is less than half off an integer is rounded to it.
proof fn lemma_half_even_near(num: nat, den: nat, k: nat)
    requires
        den > 0,
        2 * num < (2 * k + 1) * den,
        (2 * k - 1) * den < 2 * num,
    ensures
        half_even(num, den) == k,
{
    lemma_half_even(num, den);
    let h = half_even(num, den);
    assert(h == k) by (nonlinear_arith)
        requires
            den > 0,
            2 * num < (2 * k + 1) * den,
            (2 * k - 1) * den < 2 * num,
            2 * (den * h) <= 2 * num + den,
            2 * num <= 2 * (den * h) + den,
    ;
}

/// The digits of a compact count are those of the exact quotient, rounded, but where
/// that lies half way between two: in thousands (`unit` 100) and, as far as doubles
/// hold integers, in millions (`unit` 100 000).
pub proof fn law_compact_counts_are_rounded(n: nat, unit: nat)
    requires
        unit == 100 || unit == 100_000,
        10 * unit <= n < 0x10_0000_0000_0000,
        unit == 100 ==> n < 1_000_000,
        n % unit != unit / 2,
    ensures
        tenths(n, 10 * unit) == (n + unit / 2) / unit,
{
    let den = 10 * unit;
    assert(grain(n, 1) == 1);
    assert(half_even(n, 1) == n);
    assert(whole_double(n) == n);
    let s = scale(n, den, 0x10_0000_0000_0000);
    lemma_scale(n, den, 0x10_0000_0000_0000);
    assert(s > 500_000) by (nonlinear_arith)
        requires
            s == 0x10_0000_0000_0000 || n * (2 * s + 1) >= den * 0x20_0000_0000_0000,
            den == 1_000 && n < 1_000_000 || den == 1_000_000 && n < 0x10_0000_0000_0000,
    ;
    let m = half_even(n * s, den);
    lemma_half_even(n * s, den);
    let k = (n + unit / 2) / unit;
    assert(2 * (unit * k) <= 2 * n + unit - 2 && 2 * n <= 2 * (unit * k) + unit - 2);
    assert(2 * (10 * m) < (2 * k + 1) * s) by (nonlinear_arith)
        requires
            2 * (den * m) <= 2 * (n * s) + den,
            den == 10 * unit,
            2 * n <= 2 * (unit * k) + unit - 2,
            s > 5 * unit,
            unit >= 1,
    ;
    assert((2 * k - 1) * s < 2 * (10 * m)) by (nonlinear_arith)
        requires
            2 * (n * s) <= 2 * (den * m) + den,
            den == 10 * unit,
            2 * (unit * k) <= 2 * n + unit - 2,
            s > 5 * unit,
            unit >= 1,
    ;
    lemma_half_even_near(10 * m, s, k);
}

/// The ending of a noun that is counted.
pub open spec fn plural(n: int) -> Seq<char> {
    if n == 1 {
        ""@
    } else {
        "s"@
    }
}

/// The ending of a noun that is counted.
pub fn plural_ending(n: i128) -> (out: &'static str)
    ensures
        out@ == plural(n as int),
{
    if n == 1 {
        ""
    } else {
        "s"
    }
}

// ---------------------------------------------------------------------------
// Times
// ---------------------------------------------------------------------------

/// What stands for a time that is not known.
pub open spec fn unknown() -> Seq<char> {
    "—"@
}

/// How long ago a time was, in words, or its date, given, where it is a month or more.
pub open spec fn ago(secs: int, date: Seq<char>) -> Seq<char> {
    if secs < 60 {
        "just now"@
    } else if secs < 3_600 {
        decimal((secs / 60) as nat) + "m ago"@
    } else if secs < 86_400 {
        decimal((secs / 3_600) as nat) + "h ago"@
    } else if secs < 86_400 * 30 {
        decimal((secs / 86_400) as nat) + "d ago"@
    } else {
        date
    }
}

/// A time as seen from another.
pub open spec fn relative(ts: Option<i64>, now: int) -> Seq<char> {
    match ts {
        Some(ts) => match utc_formatted(ts, date_pattern()) {
            Some(date) => ago(now - ts, date),
            None => unknown(),
        },
        None => unknown(),
    }
}

/// How long ago a time was, given its date.
pub fn time_ago(secs: i64, date: String) -> (out: String)
    ensures
        out@ == ago(secs as int, date@),
{
    if secs < 60 {
        "just now".to_owned()
    } else if secs < 3_600 {
        let mut out = decimal_string((secs / 60) as u64);
        out.append("m ago");
        out
    } else if secs < 86_400 {
        let mut out = decimal_string((secs / 3_600) as u64);
        out.append("h ago");
        out
    } else if secs < 86_400 * 30 {
        let mut out = decimal_string((secs / 86_400) as u64);
        out.append("d ago");
        out
    } else {
        date
    }
}

/// A time as seen from another, `now`.
pub fn relative_time_at(ts: Option<i64>, now: i64) -> (out: String)
    requires
        0 <= now <= 200_000_000_000_000,
    ensures
        out@ == relative(ts, now as int),
{
    match ts {
        Some(ts) => match format_utc(ts, "%Y-%m-%d") {
            Some(date) => time_ago(now - ts, date),
            None => "—".to_owned(),
        },
        None => "—".to_owned(),
    }
}

/// A time as seen from now.
pub fn relative_time(ts: Option<i64>) -> (out: String)
    ensures
        exists|now: int|
            0 <= now <= 200_000_000_000_000 && out@ == #[trigger] relative(ts, now),
{
    let n: i64 = now();
    let out = relative_time_at(ts, n);
    assert(out@ == relative(ts, n as int));
    out
}

/// A time by date, hour and minute.
pub open spec fn absolute(ts: Option<i64>) -> Seq<char> {
    match ts {
        Some(ts) => match utc_formatted(ts, minute_pattern()) {
            Some(text) => text,
            None => unknown(),
        },
        None => unknown(),
    }
}

/// A time by date, hour and minute.
pub fn absolute_time(ts: Option<i64>) -> (out: String)
    ensures
        out@ == absolute(ts),
{
    match ts {
        Some(ts) => match format_utc(ts, "%Y-%m-%d %H:%M UTC") {
            Some(text) => text,
            None => "—".to_owned(),
        },
        None => "—".to_owned(),
    }
}

/// A date, and how many days ago it was; 0 of a date to come.
pub open spec fn dated(ts: Option<i64>, now: int) -> Seq<char> {
    match ts {
        Some(ts) => match utc_formatted(ts, date_pattern()) {
            Some(date) => date + " ("@ + decimal(
                (if now < ts {
                    0
                } else {
                    (now - ts) / 86_400
                }) as nat,
            ) + "d)"@,
            None => unknown(),
        },
        None => unknown(),
    }
}

/// A date, and how many days before `now` it was.
pub fn date_and_age(ts: Option<i64>, now: i64) -> (out: String)
    requires
        0 <= now <= 200_000_000_000_000,
    ensures
        out@ == dated(ts, now as int),
{
    match ts {
        Some(ts) => match format_utc(ts, "%Y-%m-%d") {
            Some(date) => {
                let days: u64 = if now < ts {
                    0
                } else {
                    ((now - ts) / 86_400) as u64
                };
                let mut out = date;
                out.append(" (");
                push_decimal(&mut out, days);
                out.append("d)");
                out
            },
            None => "—".to_owned(),
        },
        None => "—".to_owned(),
    }
}

/// Seconds of a span in milliseconds, without the fraction.
pub open spec fn whole_seconds(ms: int) -> int {
    if ms < 0 {
        -((-ms) / 1_000)
    } else {
        ms / 1_000
    }
}

/// A span of time in the two units that fit it.
pub open spec fn span_words(s: int) -> Seq<char> {
    if s < 60 {
        decimal_int(s) + "s"@
    } else if s < 3_600 {
        decimal_int(s / 60) + "m "@ + decimal_int(s % 60) + "s"@
    } else {
        decimal_int(s / 3_600) + "h "@ + decimal_int((s % 3_600) / 60) + "m"@
    }
}

/// A span of time in milliseconds, in words.
pub fn format_duration_ms(ms: Option<i64>) -> (out: String)
    ensures
        out@ == (match ms {
            Some(ms) => span_words(whole_seconds(ms as int)),
            None => unknown(),
        }),
{
    let ms: i64 = match ms {
        Some(ms) => ms,
        None => {
            return "—".to_owned();
        },
    };
    let s: i64 = if ms < 0 {
        let m: i128 = -(ms as i128);
        -((m / 1_000) as i64)
    } else {
        ms / 1_000
    };
    assert(s == whole_seconds(ms as int));
    let mut out = String::new();
    if s < 60 {
        push_int(&mut out, s);
        out.append("s");
    } else if s < 3_600 {
        push_int(&mut out, s / 60);
        out.append("m ");
        push_int(&mut out, s % 60);
        out.append("s");
    } else {
        push_int(&mut out, s / 3_600);
        out.append("h ");
        push_int(&mut out, (s % 3_600) / 60);
        out.append("m");
    }
    assert(out@ =~= span_words(s as int));
    out
}

// ---------------------------------------------------------------------------
// Names
// ---------------------------------------------------------------------------

/// A repository's label: its path below the directory that was scanned, or its name
/// where it is that directory or lies outside it.
pub open spec fn label(name: Seq<char>, path: Seq<char>, scan_cwd: Seq<char>) -> Seq<char> {
    match path_behind(path, scan_cwd) {
        Some(rest) => if rest.len() > 0 {
            rest
        } else {
            name
        },
        None => name,
    }
}

/// A repository's label.
pub fn display_repo_label(name: &str, path: &str, scan_cwd: &str) -> (out: String)
    ensures
        out@ == label(name@, path@, scan_cwd@),
{
    let p = chars_of(path);
    let base = chars_of(scan_cwd);
    match strip_base(p.as_slice(), base.as_slice()) {
        Some(rest) => {
            let filled = chars_of(rest.as_str()).len() > 0;
            if filled {
                rest
            } else {
                name.to_owned()
            }
        },
        None => name.to_owned(),
    }
}

/// A repository's label.
pub fn display_name(repo: &Repo, scan_cwd: &str) -> (out: String)
    ensures
        out@ == label(repo.name@, repo.path@, scan_cwd@),
{
    display_repo_label(repo.name.as_str(), repo.path.as_str(), scan_cwd)
}

// ---------------------------------------------------------------------------
// The banner
// ---------------------------------------------------------------------------

/// The warning about `gh` that a page carries, and what helps; `None` where `gh` is
/// well or the page does not ask.
pub fn gh_health_banner(health: Option<GhHealth>) -> (out: Option<(&'static str, &'static str)>)
    ensures
        match health {
            Some(GhHealth::Missing) => out matches Some((message, hint)) && message@
                == "gh CLI not found — CI/CD status is disabled."@ && hint@
                == "install from cli.github.com and run `gh auth login`."@,
            Some(GhHealth::NotAuthenticated) => out matches Some((message, hint)) && message@
                == "gh CLI not authenticated — CI/CD status is disabled."@ && hint@
                == "run `gh auth login` to enable it."@,
            _ => out is None,
        },
{
    match health {
        Some(GhHealth::Missing) => Some(
            (
                "gh CLI not found — CI/CD status is disabled.",
                "install from cli.github.com and run `gh auth login`.",
            ),
        ),
        Some(GhHealth::NotAuthenticated) => Some(
            (
                "gh CLI not authenticated — CI/CD status is disabled.",
                "run `gh auth login` to enable it.",
            ),
        ),
        _ => None,
    }
}

// ---------------------------------------------------------------------------
// Laws
// ---------------------------------------------------------------------------

/// A repository below the scanned directory is labelled by what its path has behind that
/// directory, and one that is the directory, or lies elsewhere, by its name.
pub proof fn law_labels_are_relative(name: Seq<char>, dir: Seq<char>, rest: Seq<char>)
    requires
        dir.len() > 0,
        rest.len() > 0,
        canonical(dir + seq!['/'] + rest),
    ensures
        label(name, dir + seq!['/'] + rest, dir) == rest,
        label(name, dir, dir) == name,
        forall|path: Seq<char>|
            !path_starts_with(path, dir) ==> #[trigger] label(name, path, dir) == name,
{
    law_below_is_deeper(dir, rest);
    law_path_leads_itself(dir);
}

/// An age is told in whole minutes, hours or days: the greatest of these units of which it
/// has one, up to thirty days. What is younger than a minute, or in the future, is just now,
/// and what is older is told by its date.
pub proof fn law_ages_are_told_in_one_unit(n: int, rest: int, date: Seq<char>)
    ensures
        n < 60 ==> ago(n, date) == "just now"@,
        1 <= n < 60 && 0 <= rest < 60 ==> ago(60 * n + rest, date) == decimal(n as nat) + "m ago"@,
        1 <= n < 24 && 0 <= rest < 3_600 ==> ago(3_600 * n + rest, date) == decimal(n as nat)
            + "h ago"@,
        1 <= n < 30 && 0 <= rest < 86_400 ==> ago(86_400 * n + rest, date) == decimal(n as nat)
            + "d ago"@,
        n >= 30 && rest >= 0 ==> ago(86_400 * n + rest, date) == date,
{
}

/// A time is shown as its age, at any moment from which it is seen, by the calendar date
/// that the outside calendar gives it; a time that is not known, or beyond the calendar, is
/// a dash.
pub proof fn law_times_are_seen_from_now(ts: i64, now: int)
    ensures
        relative(None, now) == "—"@,
        absolute(None) == "—"@,
        dated(None, now) == "—"@,
        utc_formatted(ts, "%Y-%m-%d"@) is None ==> relative(Some(ts), now) == "—"@ && dated(
            Some(ts),
            now,
        ) == "—"@,
        utc_formatted(ts, "%Y-%m-%d"@) matches Some(date) ==> relative(Some(ts), now) == ago(
            now - ts,
            date,
        ),
        utc_formatted(ts, "%Y-%m-%d %H:%M UTC"@) is None ==> absolute(Some(ts)) == "—"@,
        utc_formatted(ts, "%Y-%m-%d %H:%M UTC"@) matches Some(text) ==> absolute(Some(ts)) == text,
{
}

/// A date is followed by the whole days since; a time to come is no day old.
pub proof fn law_dates_tell_their_days(ts: i64, days: nat, rest: int, date: Seq<char>)
    requires
        utc_formatted(ts, "%Y-%m-%d"@) == Some(date),
        0 <= rest < 86_400,
    ensures
        dated(Some(ts), ts + 86_400 * days + rest) == date + " ("@ + decimal(days) + "d)"@,
        dated(Some(ts), ts - rest) == date + " ("@ + decimal(0) + "d)"@,
{
}

/// A span is told in whole seconds, in minutes and seconds, or in hours and minutes, and
/// fractions of a second are left out.
pub proof fn law_spans_are_told_in_two_units(h: int, m: int, s: int, ms: int)
    requires
        h >= 0,
        0 <= m < 60,
        0 <= s < 60,
        0 <= ms < 1_000,
    ensures
        span_words(whole_seconds(1_000 * s + ms)) == decimal_int(s) + "s"@,
        m > 0 ==> span_words(whole_seconds(1_000 * (60 * m + s) + ms)) == decimal_int(m) + "m "@
            + decimal_int(s) + "s"@,
        h > 0 ==> span_words(whole_seconds(1_000 * (3_600 * h + 60 * m + s) + ms)) == decimal_int(h)
            + "h "@ + decimal_int(m) + "m"@,
{
    assert((1_000 * s + ms) / 1_000 == s);
    assert((1_000 * (60 * m + s) + ms) / 1_000 == 60 * m + s);
    assert((1_000 * (3_600 * h + 60 * m + s) + ms) / 1_000 == 3_600 * h + 60 * m + s);
    assert((60 * m + s) / 60 == m && (60 * m + s) % 60 == s);
    assert((3_600 * h + 60 * m + s) / 3_600 == h);
    assert((3_600 * h + 60 * m + s) % 3_600 == 60 * m + s);
}

/// A count below a thousand is shown as it is, and none below zero; from a thousand on in
/// thousands, and from a million on in millions, with one decimal place.
pub proof fn law_compact_counts_have_one_place(n: int)
    ensures
        n <= 0 ==> compact(n) == seq!['0'],
        0 <= n < 1_000 ==> compact(n) == decimal(n as nat),
        1_000 <= n < 1_000_000 && n % 100 != 50 ==> compact(n) == decimal(
            ((n + 50) / 1_000) as nat,
        ) + seq!['.', digit_char((((n + 50) / 100) % 10) as nat), 'k'],
        1_000_000 <= n < 0x10_0000_0000_0000 && n % 100_000 != 50_000 ==> compact(n) == decimal(
            ((n + 50_000) / 1_000_000) as nat,
        ) + seq!['.', digit_char((((n + 50_000) / 100_000) % 10) as nat), 'M'],
{
    if 1_000 <= n < 1_000_000 && n % 100 != 50 {
        law_compact_counts_are_rounded(n as nat, 100);
        assert(((n + 50) / 100) / 10 == (n + 50) / 1_000);
        assert(compact(n) =~= decimal(((n + 50) / 1_000) as nat) + seq![
            '.',
            digit_char((((n + 50) / 100) % 10) as nat),
            'k',
        ]);
    }
    if 1_000_000 <= n < 0x10_0000_0000_0000 && n % 100_000 != 50_000 {
        law_compact_counts_are_rounded(n as nat, 100_000);
        assert(((n + 50_000) / 100_000) / 10 == (n + 50_000) / 1_000_000);
        assert(compact(n) =~= decimal(((n + 50_000) / 1_000_000) as nat) + seq![
            '.',
            digit_char((((n + 50_000) / 100_000) % 10) as nat),
            'M',
        ]);
    }
}

/// A quotient is rounded to the nearest whole number, and to the even one of two that are
/// equally near.
pub proof fn law_quotients_are_rounded_to_even(q: nat, r: nat, den: nat)
    requires
        0 <= r < den,
    ensures
        2 * r < den ==> half_even(q * den + r, den) == q,
        2 * r > den ==> half_even(q * den + r, den) == q + 1,
        2 * r == den && q % 2 == 0 ==> half_even(q * den + r, den) == q,
        2 * r == den && q % 2 == 1 ==> half_even(q * den + r, den) == q + 1,
{
    vstd::arithmetic::div_mod::lemma_fundamental_div_mod_converse(
        (q * den + r) as int,
        den as int,
        q as int,
        r as int,
    );
}

/// A span below zero has as many whole seconds as the same span above, below zero; and a
/// span above zero has no more than fit.
pub proof fn law_fractions_are_left_out(ms: int)
    requires
        ms >= 0,
    ensures
        whole_seconds(-ms) == -whole_seconds(ms),
        1_000 * whole_seconds(ms) <= ms < 1_000 * whole_seconds(ms) + 1_000,
{
}

/// A noun goes with one of a thing as it is, and with any other number in the plural.
pub proof fn law_one_is_singular(n: int)
    ensures
        plural(n).len() == 0 <==> n == 1,
        n != 1 ==> plural(n) == seq!['s'],
{
    reveal_strlit("");
    reveal_strlit("s");
}

} // verus!
