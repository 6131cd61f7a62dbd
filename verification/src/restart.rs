//! Putting a session back on the version that is installed now.
//!
//! Everything here is built around one rule: **a pane it cannot be sure about is
//! skipped, with a reason.** Guessing which conversation a pane is on and then
//! interrupting it is worse than doing nothing.
//!
//! The guards, in the order they are applied, and what each is for:
//!
//! 1. **Not this pane.** Restarting the pane taimux is running in would kill
//!    taimux mid-restart.
//! 2. **Only a stale version.** A pane already on the installed version has
//!    nothing to gain from being interrupted.
//! 3. **Idle**, unless `--include-busy`. A turn in flight is work in progress.
//! 4. **A conversation that could be identified**, from the ladder in `conv`.
//! 5. **No dialog on screen**, ever, even with `--include-busy`: a half-answered
//!    permission prompt is the one state where a Ctrl-C means something else.
//! 6. **No unsent draft, and a settled transcript**, unless `--include-busy`.
//! 7. **No transcript claimed twice.** Resuming one conversation into two panes
//!    is the same mistake on a restart as on a restore.
pub mod answers;

use vstd::prelude::*;

use crate::agents::{Agent, AgentView};
use crate::conv;
use crate::json;
use crate::order;
use crate::state;
use crate::state::State;
use crate::table::Table;
use crate::text;
use crate::text::{
    blank, chars_of, contains, contains_char, dec, lines, listed, same, slice, split, starts_with,
};

verus! {

// ---------------------------------------------------------------------------
// Dates
// ---------------------------------------------------------------------------
/// Days since 1970-01-01 for a civil date, in the proleptic Gregorian calendar.
/// Years are counted from March, so that a leap day comes last.
pub open spec fn civil_days(y: int, m: int, d: int) -> int {
    let year = if m <= 2 {
        y - 1
    } else {
        y
    };
    let era = year / 400;
    let of_era = year - era * 400;
    let of_year = (153 * ((m + 9) % 12) + 2) / 5 + d - 1;
    era * 146097 + of_era * 365 + of_era / 4 - of_era / 100 + of_year - 719468
}

pub open spec fn is_leap(y: int) -> bool {
    y % 4 == 0 && (y % 100 != 0 || y % 400 == 0)
}

pub open spec fn days_in(y: int, m: int) -> int {
    if m == 2 {
        if is_leap(y) {
            29
        } else {
            28
        }
    } else if m == 4 || m == 6 || m == 9 || m == 11 {
        30
    } else {
        31
    }
}

fn days_from_civil(y: i64, m: i64, d: i64) -> (r: i64)
    requires
        -10000 <= y <= 10000,
        1 <= m <= 12,
        1 <= d <= 31,
    ensures
        r == civil_days(y as int, m as int, d as int),
        -5000000 <= r <= 5000000,
{
    let year: i64 = if m <= 2 {
        y - 1
    } else {
        y
    };
    let shifted: i64 = year + 400000;
    let era: i64 = shifted / 400 - 1000;
    assert(era == (year as int) / 400);
    let of_era: i64 = year - era * 400;
    assert(0 <= of_era < 400);
    let mp: i64 = (m + 9) % 12;
    let of_year: i64 = (153 * mp + 2) / 5 + d - 1;
    let of_days: i64 = of_era * 365 + of_era / 4 - of_era / 100 + of_year;
    era * 146097 + of_days - 719468
}

/// The number that the characters from `a` up to `b` spell.
pub open spec fn number_in(s: Seq<char>, a: int, b: int) -> Option<int> {
    text::integer(s.subrange(a, b))
}

/// The shape of a timestamp: `2026-09-02T01:23:45`, whatever follows.
pub open spec fn stamp_shape(s: Seq<char>) -> bool {
    s.len() >= 19 && s[4] == '-' && s[7] == '-' && s[10] == 'T' && s[13] == ':' && s[16] == ':'
}

/// An ISO 8601 UTC timestamp as epoch seconds.
pub open spec fn epoch_seconds(s: Seq<char>) -> Option<int> {
    if !stamp_shape(s) {
        None
    } else {
        match (
            number_in(s, 0, 4),
            number_in(s, 5, 7),
            number_in(s, 8, 10),
            number_in(s, 11, 13),
            number_in(s, 14, 16),
            number_in(s, 17, 19),
        ) {
            (Some(y), Some(mo), Some(d), Some(h), Some(mi), Some(sec)) => if 1 <= mo <= 12 && 1 <= d
                <= 31 {
                Some(civil_days(y, mo, d) * 86400 + h * 3600 + mi * 60 + sec)
            } else {
                None
            },
            _ => None,
        }
    }
}

proof fn lemma_value_bound(s: Seq<char>)
    requires
        s.len() <= 4,
        text::all_digits(s),
    ensures
        text::value_of(s) <= 9999,
{
    reveal_with_fuel(text::value_of, 5);
    assert forall|i: int| 0 <= i < s.len() implies text::is_digit(#[trigger] s[i]) by {}
    if s.len() > 0 {
        let a = s.drop_last();
        assert(text::is_digit(s[s.len() - 1]));
        if a.len() > 0 {
            assert(a.last() == s[s.len() - 2]);
            let b = a.drop_last();
            if b.len() > 0 {
                assert(b.last() == s[s.len() - 3]);
                let c = b.drop_last();
                if c.len() > 0 {
                    assert(c.last() == s[s.len() - 4]);
                }
            }
        }
    }
}

proof fn lemma_integer_bound(s: Seq<char>)
    requires
        s.len() <= 4,
    ensures
        match text::integer(s) {
            Some(n) => -9999 <= n <= 9999,
            None => true,
        },
{
    if s.len() > 0 && (s[0] == '-' || s[0] == '+') {
        if text::all_digits(s.skip(1)) {
            lemma_value_bound(s.skip(1));
        }
    } else if text::all_digits(s) {
        lemma_value_bound(s);
    }
}

fn small_number(v: &Vec<char>, a: usize, b: usize) -> (r: Option<i64>)
    requires
        a <= b <= v@.len(),
        b - a <= 4,
    ensures
        match r {
            Some(n) => number_in(v@, a as int, b as int) == Some(n as int) && -9999 <= n <= 9999,
            None => number_in(v@, a as int, b as int) is None,
        },
{
    let t = slice(v, a, b);
    proof {
        lemma_integer_bound(t@);
    }
    text::parse_i64(&t)
}

/// An ISO 8601 UTC timestamp to epoch seconds: `2026-09-02T01:23:45.678Z`.
///
/// Anything not of that shape reads as "no answer", and the caller treats that as
/// not-evidence rather than as busy.
pub fn parse_iso8601(s: &str) -> (r: Option<i64>)
    ensures
        match r {
            Some(n) => epoch_seconds(s@) == Some(n as int),
            None => epoch_seconds(s@) is None,
        },
{
    let v = chars_of(s);
    if v.len() < 19 || v[4] != '-' || v[7] != '-' || v[10] != 'T' || v[13] != ':' || v[16] != ':' {
        return None;
    }
    let y = small_number(&v, 0, 4);
    let mo = small_number(&v, 5, 7);
    let d = small_number(&v, 8, 10);
    let h = small_number(&v, 11, 13);
    let mi = small_number(&v, 14, 16);
    let sec = small_number(&v, 17, 19);
    match (y, mo, d, h, mi, sec) {
        (Some(y), Some(mo), Some(d), Some(h), Some(mi), Some(sec)) => {
            if 1 <= mo && mo <= 12 && 1 <= d && d <= 31 {
                let days: i64 = days_from_civil(y, mo, d);
                Some(days * 86400 + h * 3600 + mi * 60 + sec)
            } else {
                None
            }
        },
        _ => None,
    }
}

/// The calendar has no gaps and no overlaps: the day after any date has the next
/// number, across the ends of months, of years and of leap Februaries alike, and
/// the first of January 1970 is day 0.
pub proof fn lemma_days_follow_each_other(y: int, m: int, d: int)
    requires
        1 <= m <= 12,
        1 <= d <= days_in(y, m),
    ensures
        d < days_in(y, m) ==> civil_days(y, m, d + 1) == civil_days(y, m, d) + 1,
        d == days_in(y, m) && m < 12 ==> civil_days(y, m + 1, 1) == civil_days(y, m, d) + 1,
        d == days_in(y, m) && m == 12 ==> civil_days(y + 1, 1, 1) == civil_days(y, m, d) + 1,
        civil_days(1970, 1, 1) == 0,
{
    lemma_months(m);
    if m == 2 {
        lemma_march_years(y);
    }
}

/// Where each month begins in a year that is counted from March.
proof fn lemma_months(m: int)
    requires
        1 <= m <= 12,
    ensures
        (153 * ((m + 9) % 12) + 2) / 5 == (if m == 1 {
            306int
        } else if m == 2 {
            337
        } else if m == 3 {
            0
        } else if m == 4 {
            31
        } else if m == 5 {
            61
        } else if m == 6 {
            92
        } else if m == 7 {
            122
        } else if m == 8 {
            153
        } else if m == 9 {
            184
        } else if m == 10 {
            214
        } else if m == 11 {
            245
        } else {
            275
        }),
        m < 12 ==> (153 * ((m + 10) % 12) + 2) / 5 == (if m == 1 {
            337int
        } else if m == 2 {
            0
        } else if m == 3 {
            31
        } else if m == 4 {
            61
        } else if m == 5 {
            92
        } else if m == 6 {
            122
        } else if m == 7 {
            153
        } else if m == 8 {
            184
        } else if m == 9 {
            214
        } else if m == 10 {
            245
        } else {
            275
        }),
{
}

/// The days before a year that is counted from March.
spec fn march_years(year: int) -> int {
    let of_era = year - (year / 400) * 400;
    (year / 400) * 146097 + of_era * 365 + of_era / 4 - of_era / 100
}

proof fn lemma_march_years(y: int)
    ensures
        march_years(y) == march_years(y - 1) + (if is_leap(y) {
            366int
        } else {
            365
        }),
{
    let e = (y - 1) / 400;
    let k = (y - 1) - e * 400;
    assert(0 <= k < 400 && y == 400 * e + (k + 1));
    vstd::arithmetic::div_mod::lemma_mod_multiples_vanish(e, k + 1, 400);
    vstd::arithmetic::div_mod::lemma_mod_multiples_vanish(4 * e, k + 1, 100);
    vstd::arithmetic::div_mod::lemma_mod_multiples_vanish(100 * e, k + 1, 4);
    if k < 399 {
        vstd::arithmetic::div_mod::lemma_fundamental_div_mod_converse(y, 400, e, k + 1);
    } else {
        vstd::arithmetic::div_mod::lemma_fundamental_div_mod_converse(y, 400, e + 1, 0);
    }
    lemma_next_quotients(k);
}

proof fn lemma_next_quotients(k: int)
    requires
        0 <= k < 400,
    ensures
        (k + 1) / 4 == k / 4 + (if (k + 1) % 4 == 0 {
            1int
        } else {
            0
        }),
        (k + 1) / 100 == k / 100 + (if (k + 1) % 100 == 0 {
            1int
        } else {
            0
        }),
        (k + 1) % 400 == 0 <==> k == 399,
{
}

// ---------------------------------------------------------------------------
// Quiet enough to interrupt
// ---------------------------------------------------------------------------
pub open spec fn verdict_view(r: Result<(), String>) -> Result<(), Seq<char>> {
    match r {
        Ok(()) => Ok(()),
        Err(e) => Err(e@),
    }
}

/// Does the line leave a tool call unanswered?
pub open spec fn calls_tool(line: Seq<char>) -> bool {
    &&& json::or_empty(json::first_value(line, "type"@)) == "assistant"@
    &&& text::has(line, "\"type\":\"tool_use\""@) || text::has(line, "\"type\": \"tool_use\""@)
}

/// What the last record of a transcript says about interrupting it.
pub open spec fn line_settled(line: Seq<char>, now: int) -> Result<(), Seq<char>> {
    if calls_tool(line) {
        Err("a tool call is still running"@)
    } else {
        match epoch_seconds(json::or_empty(json::first_value(line, "timestamp"@))) {
            Some(at) => if now - at < 45 {
                Err("active in the last 45s"@)
            } else {
                Ok(())
            },
            None => Ok(()),
        }
    }
}

pub open spec fn settled(transcript: Seq<char>, now: int) -> Result<(), Seq<char>> {
    let ls = text::lines_of(transcript);
    match state::last_filled(ls, ls.len() as int) {
        Some(i) => line_settled(ls[i], now),
        None => Ok(()),
    }
}

/// Is this transcript quiet enough to interrupt?
///
/// Two refusals: an unanswered `tool_use` as the very last record (a tool call is
/// still in flight), and any activity in the last 45 seconds. The second is
/// insurance for the first, because the screen reading is the most fragile thing
/// in this tool.
///
/// An unknown shape, a missing timestamp or one that does not parse blocks
/// nothing.
pub fn transcript_is_settled(transcript: &str, now: i64) -> (r: Result<(), String>)
    ensures
        verdict_view(r) == settled(transcript@, now as int),
{
    let ls = lines(transcript);
    let ghost all = text::texts(ls@);
    let mut i: usize = ls.len();
    while i > 0 && blank(&ls[i - 1])
        invariant
            i <= ls@.len(),
            all == text::texts(ls@),
            state::last_filled(all, i as int) == state::last_filled(all, all.len() as int),
        decreases i,
    {
        assert(all[i - 1] == ls@[i - 1]@);
        i = i - 1;
    }
    if i == 0 {
        return Ok(());
    }
    let last = &ls[i - 1];
    assert(all[i - 1] == last@);
    let kind = json::field(last, "type");
    if same(&kind, "assistant") && (contains(last, "\"type\":\"tool_use\"") || contains(
        last,
        "\"type\": \"tool_use\"",
    )) {
        return Err("a tool call is still running".to_owned());
    }
    let ts = json::field(last, "timestamp");
    match parse_iso8601(&ts) {
        Some(at) => {
            if (now as i128) - (at as i128) < 45 {
                return Err("active in the last 45s".to_owned());
            }
            Ok(())
        },
        None => Ok(()),
    }
}

/// Does any of the last `left` lines with anything in them, of the first `to`,
/// say that a Ctrl-C is half-pressed?
pub open spec fn half_pressed(ls: Seq<Seq<char>>, to: int, left: nat) -> bool
    decreases to,
{
    if to <= 0 || to > ls.len() || left == 0 {
        false
    } else if text::is_blank(ls[to - 1]) {
        half_pressed(ls, to - 1, left)
    } else {
        text::has(ls[to - 1], "Press Ctrl-C again to exit"@) || half_pressed(
            ls,
            to - 1,
            (left - 1) as nat,
        )
    }
}

pub open spec fn no_dialog(screen: Seq<char>) -> Result<(), Seq<char>> {
    let ls = text::lines_of(screen);
    if state::asking(screen) {
        Err("a dialog is waiting for an answer"@)
    } else if half_pressed(ls, ls.len() as int, 4) {
        Err("a Ctrl-C is already half-pressed"@)
    } else {
        Ok(())
    }
}

/// Is the screen free of anything a Ctrl-C would mean something else to?
///
/// Applied even with `--include-busy`, because this is the one state where the
/// keystroke that starts a restart is also an answer to a question.
pub fn screen_has_no_dialog(screen: &str) -> (r: Result<(), String>)
    ensures
        verdict_view(r) == no_dialog(screen@),
{
    if state::awaits_input(screen) {
        return Err("a dialog is waiting for an answer".to_owned());
    }
    let ls = lines(screen);
    let ghost all = text::texts(ls@);
    let mut i: usize = ls.len();
    let mut left: u8 = 4;
    while i > 0 && left > 0
        invariant
            i <= ls@.len(),
            left <= 4,
            all == text::texts(ls@),
            all == text::lines_of(screen@),
            !state::asking(screen@),
            half_pressed(all, i as int, left as nat) == half_pressed(all, all.len() as int, 4),
        decreases i,
    {
        assert(all[i - 1] == ls@[i - 1]@);
        if !blank(&ls[i - 1]) {
            if contains(&ls[i - 1], "Press Ctrl-C again to exit") {
                return Err("a Ctrl-C is already half-pressed".to_owned());
            }
            left = left - 1;
        }
        i = i - 1;
    }
    Ok(())
}

/// The lowest of the first `to` lines that is a prompt box: one with the glyph
/// in it.
pub open spec fn draft_line(ls: Seq<Seq<char>>) -> Option<int> {
    state::lowest_prompt(ls, ls.len() as int)
}

pub open spec fn no_draft(screen: Seq<char>) -> Result<(), Seq<char>> {
    let ls = text::lines_of(screen);
    if state::last_filled(ls, ls.len() as int) is None {
        Ok(())
    } else {
        match draft_line(ls) {
            None => Err("no prompt box on screen"@),
            Some(i) => match text::cut(ls[i], '❯') {
                Some((_, after)) => if text::is_blank(after) {
                    Ok(())
                } else {
                    Err("unsent text in the prompt box"@)
                },
                None => Ok(()),
            },
        }
    }
}

/// Is the prompt box empty?
///
/// Unsent text in it is work nobody has committed yet, and a restart would throw
/// it away. The non-breaking space the box is padded with is space like any
/// other, or every box would look occupied. No box at all means the screen is not
/// what it is expected to be, and that is a refusal; a blank screen is not judged.
pub fn screen_has_no_draft(screen: &str) -> (r: Result<(), String>)
    ensures
        verdict_view(r) == no_draft(screen@),
{
    let ls = lines(screen);
    let ghost all = text::texts(ls@);
    let n: usize = ls.len();
    let mut k: usize = n;
    while k > 0 && blank(&ls[k - 1])
        invariant
            k <= n == ls@.len(),
            all == text::texts(ls@),
            state::last_filled(all, k as int) == state::last_filled(all, all.len() as int),
        decreases k,
    {
        assert(all[k - 1] == ls@[k - 1]@);
        k = k - 1;
    }
    if k == 0 {
        return Ok(());
    }
    assert(all[k - 1] == ls@[k - 1]@);
    let mut i: usize = n;
    while i > 0
        invariant
            i <= n == ls@.len(),
            all == text::texts(ls@),
            all == text::lines_of(screen@),
            state::last_filled(all, all.len() as int) is Some,
            state::lowest_prompt(all, i as int) == state::lowest_prompt(all, all.len() as int),
        decreases i,
    {
        assert(all[i - 1] == ls@[i - 1]@);
        if contains_char(&ls[i - 1], '❯') {
            return match text::split_once(&ls[i - 1], '❯') {
                Some((_, after)) => {
                    if blank(&after) {
                        Ok(())
                    } else {
                        Err("unsent text in the prompt box".to_owned())
                    }
                },
                None => Ok(()),
            };
        }
        i = i - 1;
    }
    Err("no prompt box on screen".to_owned())
}

// ---------------------------------------------------------------------------
// Versions
// ---------------------------------------------------------------------------
/// A path without the marks of a deleted file it ends in.
pub open spec fn undeleted(exe: Seq<char>) -> Seq<char>
    decreases exe.len(),
{
    if " (deleted)"@.len() > 0 && " (deleted)"@.is_suffix_of(exe) {
        undeleted(exe.take(exe.len() - " (deleted)"@.len()))
    } else {
        exe
    }
}

/// The first component of a path below a directory: the version, where the
/// directory holds one folder or file per version.
pub open spec fn version_below(path: Seq<char>, dir: Seq<char>) -> Option<Seq<char>> {
    match text::without_prefix(path, dir + "/"@) {
        Some(rest) => if rest.len() > 0 {
            Some(text::fields(rest, '/')[0])
        } else {
            None
        },
        None => None,
    }
}

fn below(path: &str, dir: &str) -> (r: Option<String>)
    ensures
        text::opt_string(r) == version_below(path@, dir@),
{
    let mut prefix = dir.to_owned();
    prefix.append("/");
    match text::strip_prefix(path, &prefix) {
        Some(rest) => {
            if rest.as_str().is_empty() {
                None
            } else {
                let parts = split(&rest, '/');
                assert(text::texts(parts@)[0] == parts@[0]@);
                Some(parts[0].clone())
            }
        },
        None => None,
    }
}

/// The version a running process is executing, read from where its own
/// executable is rather than from the binary on `$PATH`: a long-lived session
/// goes on running the release it started under, and goes on doing so once an
/// update has replaced the file.
pub fn version_of_pid(exe: &str, versions_dir: &str) -> (r: Option<String>)
    ensures
        text::opt_string(r) == version_below(undeleted(exe@), versions_dir@),
{
    let v = chars_of(exe);
    let d = chars_of(" (deleted)");
    proof {
        reveal_strlit(" (deleted)");
    }
    let mut n: usize = v.len();
    assert(v@.take(n as int) =~= v@);
    while n >= 10 && text::stands_at(&v, &d, n - 10)
        invariant
            n <= v@.len(),
            v@ == exe@,
            d@ == " (deleted)"@,
            d@.len() == 10,
            undeleted(v@.take(n as int)) == undeleted(exe@),
        decreases n,
    {
        let ghost t = v@.take(n as int);
        assert(t.subrange(n - 10, n as int) =~= v@.subrange(n - 10, n as int));
        assert(t.take(n - 10) =~= v@.take(n - 10));
        n = n - 10;
    }
    proof {
        let t = v@.take(n as int);
        if d@.is_suffix_of(t) {
            assert(t.subrange(n - 10, n as int) =~= v@.subrange(n - 10, n as int));
        }
    }
    assert(v@.subrange(0, n as int) =~= v@.take(n as int));
    let path = slice(&v, 0, n);
    below(&path, versions_dir)
}

/// What a session started right now would run, refusing rather than guessing when
/// the launcher points somewhere unexpected. `target` is where the launcher
/// really points, or nothing where it points nowhere.
pub fn installed(launcher: &str, target: &str, versions_dir: &str) -> (r: Result<String, String>)
    ensures
        match r {
            Ok(v) => version_below(target@, versions_dir@) == Some(v@),
            Err(e) => version_below(target@, versions_dir@) is None && e@ == "restart: "@
                + launcher@ + " does not point into "@ + versions_dir@ + " (got '"@ + (
            if target@.len() == 0 {
                "nothing"@
            } else {
                target@
            }) + "')"@,
        },
{
    match below(target, versions_dir) {
        Some(v) => Ok(v),
        None => {
            let mut e = "restart: ".to_owned();
            e.append(launcher);
            e.append(" does not point into ");
            e.append(versions_dir);
            e.append(" (got '");
            if target.is_empty() {
                e.append("nothing");
            } else {
                e.append(target);
            }
            e.append("')");
            Err(e)
        },
    }
}

/// Where the installed versions are, below the home directory.
pub fn versions_dir(agent: &str, home: &str) -> (r: String)
    ensures
        r@ == home@ + "/.local/share/"@ + agent@ + "/versions"@,
{
    let mut t = home.to_owned();
    t.append("/.local/share/");
    t.append(agent);
    t.append("/versions");
    t
}

/// What starts the installed one.
pub fn launcher(agent: &str, home: &str) -> (r: String)
    ensures
        r@ == home@ + "/.local/bin/"@ + agent@,
{
    let mut t = home.to_owned();
    t.append("/.local/bin/");
    t.append(agent);
    t
}

/// The default answer is yes, so a bare Enter restarts. The plan has already been
/// printed by then, which is what makes that safe.
pub fn confirm_yes(answer: &str) -> (r: bool)
    ensures
        r == ({
            let a = text::trimmed(answer@);
            a.len() == 0 || a == "y"@ || a == "Y"@ || a == "yes"@ || a == "YES"@ || a == "Yes"@
        }),
{
    let a = text::trim(answer);
    a.as_str().is_empty() || same(&a, "y") || same(&a, "Y") || same(&a, "yes") || same(&a, "YES")
        || same(&a, "Yes")
}

// ---------------------------------------------------------------------------
// Sessions that have no pane
// ---------------------------------------------------------------------------
/// A process, as the sweep for sessions without a pane sees it.
pub struct Process {
    pub pid: i32,
    /// The name the kernel keeps for it, with whatever space surrounds it.
    pub comm: String,
    pub argv: Vec<String>,
}

pub struct ProcessView {
    pub pid: i32,
    pub comm: Seq<char>,
    pub argv: Seq<Seq<char>>,
}

impl View for Process {
    type V = ProcessView;

    open spec fn view(&self) -> ProcessView {
        ProcessView { pid: self.pid, comm: self.comm@, argv: text::texts(self.argv@) }
    }
}

pub open spec fn processes_view(v: Seq<Process>) -> Seq<ProcessView> {
    v.map_values(|p: Process| p@)
}

/// Is the process a session of the agent: by its name, or by running out of the versions
/// directory?
pub open spec fn is_claude(agent: Seq<char>, p: ProcessView, dir: Seq<char>) -> bool {
    text::trimmed(p.comm) == agent || (p.argv.len() > 0 && (dir + "/"@).is_prefix_of(p.argv[0]))
}

/// The session processes that no pane was matched with, as they were listed.
pub open spec fn strays(
    agent: Seq<char>,
    procs: Seq<ProcessView>,
    matched: Seq<i32>,
    dir: Seq<char>,
) -> Seq<i32>
    decreases procs.len(),
{
    if procs.len() == 0 {
        Seq::empty()
    } else {
        let rest = strays(agent, procs.drop_last(), matched, dir);
        let p = procs.last();
        if !matched.contains(p.pid) && is_claude(agent, p, dir) {
            rest.push(p.pid)
        } else {
            rest
        }
    }
}

fn is_claude_process(agent: &str, p: &Process, dir: &str) -> (r: bool)
    ensures
        r == is_claude(agent@, p@, dir@),
{
    let name = text::trim(&p.comm);
    if same(&name, agent) {
        return true;
    }
    if p.argv.len() == 0 {
        return false;
    }
    assert(text::texts(p.argv@)[0] == p.argv@[0]@);
    let mut prefix = dir.to_owned();
    prefix.append("/");
    starts_with(&p.argv[0], &prefix)
}

fn among(v: &Vec<i32>, n: i32) -> (r: bool)
    ensures
        r == v@.contains(n),
{
    let mut i: usize = 0;
    while i < v.len()
        invariant
            i <= v@.len(),
            forall|k: int| 0 <= k < i ==> v@[k] != n,
        decreases v@.len() - i,
    {
        if v[i] == n {
            return true;
        }
        i = i + 1;
    }
    false
}

/// The session processes that are not any pane's foreground job: an editor's
/// bridge, a background agent, one of the daemon's spare pty hosts. Lowest
/// process id first.
///
/// Reported, never touched. A restart types into a PANE, and these have none, so
/// the only useful thing to do about a stale one is name it.
pub fn nonpane_pids(
    agent: &str,
    matched: &Vec<i32>,
    versions_dir: &str,
    processes: &Vec<Process>,
) -> (r: Vec<i32>)
    ensures
        r@ == order::ascending(strays(agent@, processes_view(processes@), matched@, versions_dir@)),
{
    let ghost all = processes_view(processes@);
    let mut found: Vec<i32> = Vec::new();
    let mut i: usize = 0;
    assert(found@ =~= strays(agent@, all.take(0), matched@, versions_dir@));
    while i < processes.len()
        invariant
            i <= processes@.len(),
            all == processes_view(processes@),
            found@ == strays(agent@, all.take(i as int), matched@, versions_dir@),
        decreases processes@.len() - i,
    {
        let p = &processes[i];
        assert(all.take(i + 1).drop_last() =~= all.take(i as int));
        assert(all.take(i + 1).last() == p@);
        if !among(matched, p.pid) && is_claude_process(agent, p, versions_dir) {
            found.push(p.pid);
        }
        i = i + 1;
    }
    assert(all.take(all.len() as int) =~= all);
    order::sort(&found)
}

/// The place of the brace that opens the object which holds place `i`, looking
/// back over `depth` objects that have closed.
pub open spec fn opening(s: Seq<char>, i: int, depth: nat) -> Option<int>
    decreases i,
{
    if i <= 0 {
        None
    } else if s[i - 1] == '}' {
        opening(s, i - 1, depth + 1)
    } else if s[i - 1] == '{' {
        if depth == 0 {
            Some(i - 1)
        } else {
            opening(s, i - 1, (depth - 1) as nat)
        }
    } else {
        opening(s, i - 1, depth)
    }
}

/// The place of the brace that closes the last of `depth` open objects.
pub open spec fn closing(s: Seq<char>, i: int, depth: nat) -> Option<int>
    decreases s.len() - i,
{
    if i < 0 || i >= s.len() {
        None
    } else if s[i] == '{' {
        closing(s, i + 1, depth + 1)
    } else if s[i] == '}' {
        if depth <= 1 {
            Some(i)
        } else {
            closing(s, i + 1, (depth - 1) as nat)
        }
    } else {
        closing(s, i + 1, depth)
    }
}

/// Where a key with a value that starts so stands.
pub open spec fn keyed(s: Seq<char>, key: Seq<char>, prefix: Seq<char>) -> Option<int> {
    match text::find(s, "\""@ + key + "\":\""@ + prefix) {
        Some(at) => Some(at),
        None => text::find(s, "\""@ + key + "\": \""@ + prefix),
    }
}

/// The object that holds that key, from brace to brace.
pub open spec fn object_with(s: Seq<char>, key: Seq<char>, prefix: Seq<char>) -> Option<Seq<char>> {
    match keyed(s, key, prefix) {
        None => None,
        Some(at) => match opening(s, at, 0) {
            None => None,
            Some(a) => match closing(s, a, 0) {
                None => None,
                Some(b) => Some(s.subrange(a, b + 1)),
            },
        },
    }
}

proof fn lemma_opening(s: Seq<char>, i: int, depth: nat)
    requires
        i <= s.len(),
    ensures
        match opening(s, i, depth) {
            Some(a) => 0 <= a < i && s[a] == '{',
            None => true,
        },
    decreases i,
{
    if i > 0 {
        if s[i - 1] == '}' {
            lemma_opening(s, i - 1, depth + 1);
        } else if s[i - 1] == '{' {
            if depth > 0 {
                lemma_opening(s, i - 1, (depth - 1) as nat);
            }
        } else {
            lemma_opening(s, i - 1, depth);
        }
    }
}

proof fn lemma_closing(s: Seq<char>, i: int, depth: nat)
    requires
        0 <= i,
    ensures
        match closing(s, i, depth) {
            Some(b) => i <= b < s.len() && s[b] == '}',
            None => true,
        },
    decreases s.len() - i,
{
    if i < s.len() {
        if s[i] == '{' {
            lemma_closing(s, i + 1, depth + 1);
        } else if s[i] == '}' {
            if depth > 1 {
                lemma_closing(s, i + 1, (depth - 1) as nat);
            }
        } else {
            lemma_closing(s, i + 1, depth);
        }
    }
}

fn opening_at(v: &Vec<char>, from: usize) -> (r: Option<usize>)
    requires
        from <= v@.len(),
    ensures
        match r {
            Some(a) => opening(v@, from as int, 0) == Some(a as int) && a < from,
            None => opening(v@, from as int, 0) is None,
        },
{
    let mut i: usize = from;
    let mut depth: usize = 0;
    while i > 0
        invariant
            i <= from <= v@.len(),
            depth <= from - i,
            opening(v@, i as int, depth as nat) == opening(v@, from as int, 0),
        decreases i,
    {
        let c = v[i - 1];
        if c == '}' {
            depth = depth + 1;
        } else if c == '{' {
            if depth == 0 {
                return Some(i - 1);
            }
            depth = depth - 1;
        }
        i = i - 1;
    }
    None
}

fn closing_at(v: &Vec<char>, from: usize) -> (r: Option<usize>)
    requires
        from <= v@.len(),
    ensures
        match r {
            Some(b) => closing(v@, from as int, 0) == Some(b as int) && from <= b < v@.len(),
            None => closing(v@, from as int, 0) is None,
        },
{
    let mut i: usize = from;
    let mut depth: usize = 0;
    while i < v.len()
        invariant
            from <= i <= v@.len(),
            depth <= i - from,
            closing(v@, i as int, depth as nat) == closing(v@, from as int, 0),
        decreases v@.len() - i,
    {
        let c = v[i];
        if c == '{' {
            depth = depth + 1;
        } else if c == '}' {
            if depth <= 1 {
                return Some(i);
            }
            depth = depth - 1;
        }
        i = i + 1;
    }
    None
}

/// The object in a JSON array whose `key` starts with `prefix`, as raw text.
///
/// A brace matcher rather than a parser: it only has to find one element of one
/// array, and the depth count is what makes it safe against nested objects.
pub fn json_object_with_prefix(json: &str, key: &str, prefix: &str) -> (r: Option<String>)
    ensures
        text::opt_string(r) == object_with(json@, key@, prefix@),
{
    let v = chars_of(json);
    let mut needle = "\"".to_owned();
    needle.append(key);
    needle.append("\":\"");
    needle.append(prefix);
    let n = chars_of(&needle);
    let at: usize = match text::find_at(&v, &n, 0) {
        Some(at) => at,
        None => {
            let mut spaced = "\"".to_owned();
            spaced.append(key);
            spaced.append("\": \"");
            spaced.append(prefix);
            let n = chars_of(&spaced);
            match text::find_at(&v, &n, 0) {
                Some(at) => at,
                None => {
                    return None;
                },
            }
        },
    };
    match opening_at(&v, at) {
        None => None,
        Some(a) => match closing_at(&v, a) {
            None => None,
            Some(b) => Some(slice(&v, a, b + 1)),
        },
    }
}

/// A session id, whether it arrived as one or as a path.
pub open spec fn id_of(s: Seq<char>) -> Seq<char> {
    text::without_suffix(text::after_last(s, '/'), ".jsonl"@)
}

/// A session id, whether it arrived as one or as a path to its transcript.
pub fn base_id(s: &str) -> (r: String)
    ensures
        r@ == id_of(s@),
{
    let name = text::tail_after(s, '/');
    text::trim_suffix(&name, ".jsonl")
}

/// What follows the last of the first `n` arguments that is one of two, or
/// nothing.
pub open spec fn last_value(argv: Seq<Seq<char>>, a: Seq<char>, b: Seq<char>, n: int) -> Seq<char>
    decreases n,
{
    if n <= 1 || n > argv.len() {
        Seq::empty()
    } else if argv[n - 1] == a || argv[n - 1] == b {
        if n < argv.len() {
            argv[n]
        } else {
            Seq::empty()
        }
    } else {
        last_value(argv, a, b, n - 1)
    }
}

pub open spec fn forked(argv: Seq<Seq<char>>) -> bool {
    exists|i: int| 1 <= i < argv.len() && #[trigger] argv[i] == "--fork-session"@
}

/// A text in place of an empty one.
pub open spec fn or_else(s: Seq<char>, other: Seq<char>) -> Seq<char> {
    if s.len() == 0 {
        other
    } else {
        s
    }
}

/// Kind, state and name of a session, as the list of agents has them.
pub open spec fn agent_entry(agents: Seq<char>, own: Seq<char>) -> (Seq<char>, Seq<char>, Seq<char>) {
    if own.len() == 0 {
        ("?"@, "?"@, Seq::empty())
    } else {
        match object_with(agents, "sessionId"@, own) {
            Some(obj) => (
                or_else(json::or_empty(json::first_value(obj, "kind"@)), "?"@),
                or_else(
                    or_else(
                        json::or_empty(json::first_value(obj, "state"@)),
                        json::or_empty(json::first_value(obj, "status"@)),
                    ),
                    "?"@,
                ),
                json::or_empty(json::first_value(obj, "name"@)),
            ),
            None => ("?"@, "?"@, Seq::empty()),
        }
    }
}

/// What is said of a session that has no pane.
pub open spec fn nonpane_note(argv: Seq<Seq<char>>, agents: Seq<char>) -> Seq<char> {
    if argv.len() == 0 {
        "gone"@
    } else {
        let n = argv.len() as int;
        let sid = last_value(argv, "--session-id"@, "--session-id"@, n);
        let res = last_value(argv, "-r"@, "--resume"@, n);
        let own = id_of(or_else(sid, res));
        let parent = if forked(argv) && res.len() > 0 {
            id_of(res)
        } else {
            Seq::empty()
        };
        let (kind, st, name) = agent_entry(agents, own);
        let a = kind + " "@ + st;
        let b = if forked(argv) {
            a + " fork"@
        } else {
            a
        };
        let c = if name.len() > 0 {
            b + " \""@ + name + "\""@
        } else {
            b
        };
        let d = if own.len() > 0 {
            c + " ["@ + text::first_chars(own, 8) + "]"@
        } else {
            c
        };
        if parent.len() > 0 {
            d + " of ["@ + text::first_chars(parent, 8) + "]"@
        } else {
            d
        }
    }
}

fn value_of_last(argv: &[String], a: &str, b: &str) -> (r: String)
    ensures
        r@ == last_value(text::texts(argv@), a@, b@, argv@.len() as int),
{
    let ghost all = text::texts(argv@);
    let total: usize = argv.len();
    let mut n: usize = total;
    while n > 1
        invariant
            n <= total == argv@.len(),
            all == text::texts(argv@),
            last_value(all, a@, b@, n as int) == last_value(all, a@, b@, total as int),
        decreases n,
    {
        assert(all[n - 1] == argv@[n - 1]@);
        if same(&argv[n - 1], a) || same(&argv[n - 1], b) {
            if n < total {
                assert(all[n as int] == argv@[n as int]@);
                return argv[n].clone();
            }
            let none = String::new();
            assert(none@ =~= Seq::<char>::empty());
            return none;
        }
        n = n - 1;
    }
    let none = String::new();
    assert(none@ =~= Seq::<char>::empty());
    none
}

fn is_forked(argv: &[String]) -> (r: bool)
    ensures
        r == forked(text::texts(argv@)),
{
    let ghost all = text::texts(argv@);
    let mut i: usize = 1;
    while i < argv.len()
        invariant
            1 <= i,
            all == text::texts(argv@),
            forall|k: int| 1 <= k < i && k < all.len() ==> #[trigger] all[k] != "--fork-session"@,
        decreases argv@.len() - i,
    {
        assert(all[i as int] == argv@[i as int]@);
        if same(&argv[i], "--fork-session") {
            return true;
        }
        i = i + 1;
    }
    false
}

fn filled(s: String, other: String) -> (r: String)
    ensures
        r@ == or_else(s@, other@),
{
    if s.as_str().is_empty() {
        other
    } else {
        s
    }
}

fn entry_of(agents: &str, own: &str) -> (r: (String, String, String))
    ensures
        (r.0@, r.1@, r.2@) == agent_entry(agents@, own@),
{
    let none = String::new();
    assert(none@ =~= Seq::<char>::empty());
    if own.is_empty() {
        return ("?".to_owned(), "?".to_owned(), none);
    }
    match json_object_with_prefix(agents, "sessionId", own) {
        Some(obj) => {
            let kind = filled(json::field(&obj, "kind"), "?".to_owned());
            let st = filled(json::field(&obj, "state"), json::field(&obj, "status"));
            (kind, filled(st, "?".to_owned()), json::field(&obj, "name"))
        },
        None => ("?".to_owned(), "?".to_owned(), none),
    }
}

/// What to say about a session that has no pane.
///
/// `agents_json` is the list of agents as the agent's command line prints it. Its
/// own `pid` field points at the pty-host wrapper rather than at the session, so
/// it is read for kind, state and name and nothing else.
pub fn describe_nonpane(argv: &[String], agents_json: &str) -> (r: String)
    ensures
        r@ == nonpane_note(text::texts(argv@), agents_json@),
{
    if argv.len() == 0 {
        return "gone".to_owned();
    }
    let sid = value_of_last(argv, "--session-id", "--session-id");
    let res = value_of_last(argv, "-r", "--resume");
    let fork = is_forked(argv);
    let own = if sid.as_str().is_empty() {
        base_id(&res)
    } else {
        base_id(&sid)
    };
    let (kind, st, name) = entry_of(agents_json, &own);
    let mut out = kind;
    out.append(" ");
    out.append(&st);
    if fork {
        out.append(" fork");
    }
    if !name.as_str().is_empty() {
        out.append(" \"");
        out.append(&name);
        out.append("\"");
    }
    if !own.as_str().is_empty() {
        out.append(" [");
        let t = text::take_chars(&own, 8);
        out.append(&t);
        out.append("]");
    }
    if fork && !res.as_str().is_empty() {
        let parent = base_id(&res);
        if !parent.as_str().is_empty() {
            out.append(" of [");
            let t = text::take_chars(&parent, 8);
            out.append(&t);
            out.append("]");
        }
    }
    out
}

/// How many objects opened in `s` from `a` up to `k` are still open there.
pub open spec fn level(s: Seq<char>, a: int, k: int) -> int
    decreases k - a,
{
    if k <= a {
        0
    } else {
        level(s, a, k - 1) + (if s[k - 1] == '{' {
            1int
        } else if s[k - 1] == '}' {
            -1int
        } else {
            0int
        })
    }
}

proof fn lemma_levels(s: Seq<char>, a: int, i: int, depth: nat)
    requires
        0 <= a <= i,
        a < s.len(),
        s[a] == '{',
        depth == level(s, a, i),
        forall|k: int| a < k <= i ==> #[trigger] level(s, a, k) > 0,
    ensures
        match closing(s, i, depth) {
            Some(b) => level(s, a, b + 1) == 0 && forall|k: int|
                a < k <= b ==> #[trigger] level(s, a, k) > 0,
            None => true,
        },
    decreases s.len() - i,
{
    if i < s.len() {
        assert(level(s, a, i + 1) == level(s, a, i) + (if s[i] == '{' {
            1int
        } else if s[i] == '}' {
            -1int
        } else {
            0int
        }));
        if s[i] == '{' {
            lemma_levels(s, a, i + 1, depth + 1);
        } else if s[i] == '}' {
            if depth > 1 {
                lemma_levels(s, a, i + 1, (depth - 1) as nat);
            }
        } else {
            lemma_levels(s, a, i + 1, depth);
        }
    }
}

/// An object that comes back is whole: it begins with its opening brace, ends with
/// the brace that closes it, and that is the first place where every brace opened
/// in it has been closed.
pub proof fn lemma_an_object_comes_back_whole(s: Seq<char>, key: Seq<char>, prefix: Seq<char>)
    ensures
        match object_with(s, key, prefix) {
            Some(o) => exists|a: int, b: int|
                0 <= a < b < s.len() && o == #[trigger] s.subrange(a, b + 1) && s[a] == '{' && s[b]
                    == '}' && level(s, a, b + 1) == 0 && forall|k: int|
                    a < k <= b ==> #[trigger] level(s, a, k) > 0,
            None => true,
        },
{
    match keyed(s, key, prefix) {
        None => {},
        Some(at) => {
            text::lemma_find_from(s, "\""@ + key + "\":\""@ + prefix, 0);
            text::lemma_find_from(s, "\""@ + key + "\": \""@ + prefix, 0);
            lemma_opening(s, at, 0);
            match opening(s, at, 0) {
                None => {},
                Some(a) => {
                    lemma_closing(s, a, 0);
                    lemma_levels(s, a, a, 0);
                    match closing(s, a, 0) {
                        None => {},
                        Some(b) => {
                            assert(object_with(s, key, prefix) == Some(s.subrange(a, b + 1)));
                        },
                    }
                },
            }
        },
    }
}

// ---------------------------------------------------------------------------
// The plan
// ---------------------------------------------------------------------------
/// One pane the plan will act on.
pub struct Planned {
    pub pane: String,
    pub target: String,
    pub pid: i32,
    pub cmd: String,
    pub title: String,
    pub via: String,
}

#[verifier::ext_equal]
pub struct PlannedView {
    pub pane: Seq<char>,
    pub target: Seq<char>,
    pub pid: i32,
    pub cmd: Seq<char>,
    pub title: Seq<char>,
    pub via: Seq<char>,
}

impl View for Planned {
    type V = PlannedView;

    open spec fn view(&self) -> PlannedView {
        PlannedView {
            pane: self.pane@,
            target: self.target@,
            pid: self.pid,
            cmd: self.cmd@,
            title: self.title@,
            via: self.via@,
        }
    }
}

pub open spec fn planned_view(v: Seq<Planned>) -> Seq<PlannedView> {
    v.map_values(|p: Planned| p@)
}

pub struct Plan {
    /// The name of the agent whose sessions are restarted.
    pub agent: String,
    pub newver: String,
    pub launcher: String,
    pub go: Vec<Planned>,
    pub skipped: Vec<String>,
    /// Set when at least one pane was skipped for being unresolvable, which gets
    /// its own paragraph: it is the one skip the reader can act on.
    pub unresolved: bool,
}

pub struct Opts<'a> {
    /// The agent whose sessions are restarted.
    pub agent: Agent<'a>,
    pub include_busy: bool,
    pub only_panes: Vec<String>,
    pub force_transcript: Option<String>,
    pub self_pane: String,
}

pub struct OptsView {
    pub agent: AgentView,
    pub include_busy: bool,
    pub only_panes: Seq<Seq<char>>,
    pub force_transcript: Option<Seq<char>>,
    pub self_pane: Seq<char>,
}

impl<'a> View for Opts<'a> {
    type V = OptsView;

    open spec fn view(&self) -> OptsView {
        OptsView {
            agent: self.agent@,
            include_busy: self.include_busy,
            only_panes: text::texts(self.only_panes@),
            force_transcript: text::opt_string(self.force_transcript),
            self_pane: self.self_pane@,
        }
    }
}

pub open spec fn found_view(r: Result<String, String>) -> Result<Seq<char>, Seq<char>> {
    match r {
        Ok(t) => Ok(t@),
        Err(e) => Err(e@),
    }
}

/// Everything the plan needs from the outside, so it can be built against
/// fixtures as well as against a live machine. What a machine answers is what it
/// is, while one plan is made.
pub trait Env {
    /// What is on a pane's screen.
    spec fn screen(&self, pane: Seq<char>) -> Seq<char>;

    /// What the hook last recorded for the session in a pane.
    spec fn hooked(&self, pane: Seq<char>, pid: i32) -> Option<Seq<char>>;

    /// The version a process is running.
    spec fn version(&self, pid: i32) -> Option<Seq<char>>;

    /// The directory a process is in.
    spec fn directory(&self, pid: i32) -> Option<Seq<char>>;

    /// The arguments a process was started with.
    spec fn arguments(&self, pid: i32) -> Seq<Seq<char>>;

    /// The conversation a pane is on, and after a tab how that is known; or why
    /// it could not be told.
    spec fn conversation(
        &self,
        pane: Seq<char>,
        cwd: Seq<char>,
        title: Seq<char>,
        pid: i32,
    ) -> Result<Seq<char>, Seq<char>>;

    /// What a transcript holds.
    spec fn transcript(&self, path: Seq<char>) -> Option<Seq<char>>;

    /// The time, in epoch seconds.
    spec fn clock(&self) -> i64;

    fn capture(&self, pane: &str) -> (r: String)
        ensures
            r@ == self.screen(pane@),
    ;

    fn hook_state(&self, pane: &str, pid: i32) -> (r: Option<String>)
        ensures
            text::opt_string(r) == self.hooked(pane@, pid),
    ;

    fn version_of_pid(&self, pid: i32) -> (r: Option<String>)
        ensures
            text::opt_string(r) == self.version(pid),
    ;

    fn cwd_of(&self, pid: i32) -> (r: Option<String>)
        ensures
            text::opt_string(r) == self.directory(pid),
    ;

    fn argv_of(&self, pid: i32) -> (r: Vec<String>)
        ensures
            text::texts(r@) == self.arguments(pid),
    ;

    fn resolve(&self, pane: &str, cwd: &str, title: &str, pid: i32) -> (r: Result<String, String>)
        ensures
            found_view(r) == self.conversation(pane@, cwd@, title@, pid),
    ;

    fn read_transcript(&self, path: &str) -> (r: Option<String>)
        ensures
            text::opt_string(r) == self.transcript(path@),
    ;

    fn now(&self) -> (r: i64)
        ensures
            r == self.clock(),
    ;
}

/// What is decided of one pane that runs some version.
#[verifier::ext_equal]
pub enum Verdict {
    /// Nothing is done and nothing is said.
    Pass,
    /// Left alone, for the reason given.
    Skip(Seq<char>),
    /// Left alone because its conversation is not known.
    Unresolved(Seq<char>),
    /// Left alone because its arguments cannot be read, after it claimed the
    /// transcript.
    Gone(Seq<char>, Seq<char>),
    /// To be restarted on the transcript.
    Go(PlannedView, Seq<char>),
}

/// A line on why a pane is left alone.
pub open spec fn noted(f: Seq<Seq<char>>, ver: Seq<char>, why: Seq<char>) -> Seq<char> {
    f[0] + " "@ + f[1] + "  "@ + ver + ", "@ + why
}

/// The directory the session itself is in, or else the pane's.
pub open spec fn session_dir<E: Env>(f: Seq<Seq<char>>, e: &E) -> Seq<char> {
    match e.directory(conv::row_pid(f)) {
        Some(d) => d,
        None => f[2],
    }
}

/// The transcript to resume and how it is known.
pub open spec fn chosen<E: Env>(f: Seq<Seq<char>>, o: OptsView, e: &E) -> Result<
    (Seq<char>, Seq<char>),
    Seq<char>,
> {
    match o.force_transcript {
        Some(t) => Ok((t, "--transcript, given"@)),
        None => match e.conversation(f[0], session_dir(f, e), f[6], conv::row_pid(f)) {
            Ok(t) => Ok(
                match text::cut(t, '\t') {
                    Some((path, why)) => (path, why),
                    None => (t, Seq::empty()),
                },
            ),
            Err(why) => Err(why),
        },
    }
}

/// Is the session quiet enough to interrupt?
pub open spec fn quiet<E: Env>(
    screen: Seq<char>,
    transcript: Seq<char>,
    o: OptsView,
    e: &E,
) -> Result<(), Seq<char>> {
    match no_dialog(screen) {
        Err(why) => Err(why),
        Ok(()) => if o.include_busy {
            Ok(())
        } else {
            match no_draft(screen) {
                Err(why) => Err(why),
                Ok(()) => match e.transcript(transcript) {
                    Some(t) => settled(t, e.clock() as int),
                    None => Ok(()),
                },
            }
        },
    }
}

pub open spec fn wanted(f: Seq<Seq<char>>, o: OptsView) -> bool {
    o.only_panes.len() == 0 || o.only_panes.contains(f[0])
}

/// What is decided of a pane that runs version `ver`.
pub open spec fn verdict<E: Env>(
    f: Seq<Seq<char>>,
    ver: Seq<char>,
    newver: Seq<char>,
    o: OptsView,
    e: &E,
    claimed: Map<Seq<char>, Seq<char>>,
) -> Verdict {
    let pid = conv::row_pid(f);
    let screen = e.screen(f[0]);
    let st = state::merged(screen, e.hooked(f[0], pid), o.agent.spoken);
    if !wanted(f, o) || ver == newver {
        Verdict::Pass
    } else if f[0] == o.self_pane {
        Verdict::Skip(
            noted(f, ver, "this pane: restart it by hand (killing it would kill taimux)"@),
        )
    } else if st != State::Idle && !o.include_busy {
        Verdict::Skip(noted(f, ver, st.word() + ": rerun when idle, or --include-busy"@))
    } else {
        match chosen(f, o, e) {
            Err(why) => Verdict::Unresolved(noted(f, ver, "unresolved: "@ + why)),
            Ok((transcript, via)) => match quiet(screen, transcript, o, e) {
                Err(why) => Verdict::Skip(noted(f, ver, "not settled: "@ + why)),
                Ok(()) => if claimed.dom().contains(transcript) {
                    Verdict::Skip(
                        noted(
                            f,
                            ver,
                            "resolves to the same transcript as "@ + claimed[transcript],
                        ),
                    )
                } else {
                    match conv::command(
                        o.agent.name,
                        e.arguments(pid),
                        transcript,
                        session_dir(f, e),
                        f[2],
                    ) {
                        None => Verdict::Gone(
                            noted(f, ver, "could not read its argv"@),
                            transcript,
                        ),
                        Some(cmd) => Verdict::Go(
                            PlannedView {
                                pane: f[0],
                                target: f[1],
                                pid,
                                cmd,
                                title: f[6],
                                via: ver + " -> "@ + newver + ", "@ + via + ", "@ + st.word(),
                            },
                            transcript,
                        ),
                    }
                },
            },
        }
    }
}

/// A plan as far as it has been made.
#[verifier::ext_equal]
pub struct Draft {
    pub go: Seq<PlannedView>,
    /// The transcript of each pane to be restarted.
    pub resumed: Seq<Seq<char>>,
    pub skipped: Seq<Seq<char>>,
    pub unresolved: bool,
    /// Which pane claimed which transcript.
    pub claimed: Map<Seq<char>, Seq<char>>,
    /// The processes that have a pane.
    pub matched: Seq<i32>,
}

pub open spec fn blank_draft() -> Draft {
    Draft {
        go: Seq::empty(),
        resumed: Seq::empty(),
        skipped: Seq::empty(),
        unresolved: false,
        claimed: Map::empty(),
        matched: Seq::empty(),
    }
}

/// The draft with one verdict taken into it.
pub open spec fn taken(d: Draft, pane: Seq<char>, v: Verdict) -> Draft {
    match v {
        Verdict::Pass => d,
        Verdict::Skip(why) => Draft { skipped: d.skipped.push(why), ..d },
        Verdict::Unresolved(why) => Draft { skipped: d.skipped.push(why), unresolved: true, ..d },
        Verdict::Gone(why, t) => Draft {
            skipped: d.skipped.push(why),
            claimed: d.claimed.insert(t, pane),
            ..d
        },
        Verdict::Go(p, t) => Draft {
            go: d.go.push(p),
            resumed: d.resumed.push(t),
            claimed: d.claimed.insert(t, pane),
            ..d
        },
    }
}

/// The version that runs in a pane, where it has a session process at all.
pub open spec fn running<E: Env>(f: Seq<Seq<char>>, e: &E) -> Option<Seq<char>> {
    if conv::row_pid(f) == 0 {
        None
    } else {
        e.version(conv::row_pid(f))
    }
}

/// The draft with one row of the pane scan taken into it.
pub open spec fn with_row<E: Env>(
    d: Draft,
    line: Seq<char>,
    newver: Seq<char>,
    o: OptsView,
    e: &E,
) -> Draft {
    let f = text::fields(line, '\t');
    if !conv::claude_row(o.agent.name, f) {
        d
    } else {
        match running(f, e) {
            None => Draft {
                skipped: d.skipped.push(
                    f[0] + " "@ + f[1] + "  looks like "@ + o.agent.name
                        + " but no session process was found under the pane"@,
                ),
                ..d
            },
            Some(ver) => taken(
                Draft { matched: d.matched.push(conv::row_pid(f)), ..d },
                f[0],
                verdict(f, ver, newver, o, e, d.claimed),
            ),
        }
    }
}

/// The draft that a pane scan gives, line by line.
pub open spec fn drafted<E: Env>(
    ls: Seq<Seq<char>>,
    newver: Seq<char>,
    o: OptsView,
    e: &E,
) -> Draft
    decreases ls.len(),
{
    if ls.len() == 0 {
        blank_draft()
    } else {
        with_row(drafted(ls.drop_last(), newver, o, e), ls.last(), newver, o, e)
    }
}

/// A line for each process that runs another version than the installed one.
pub open spec fn stray_notes<E: Env>(
    pids: Seq<i32>,
    newver: Seq<char>,
    e: &E,
    agents: Seq<char>,
) -> Seq<Seq<char>>
    decreases pids.len(),
{
    if pids.len() == 0 {
        Seq::empty()
    } else {
        let rest = stray_notes(pids.drop_last(), newver, e, agents);
        match e.version(pids.last()) {
            Some(ver) => if ver != newver {
                rest.push(
                    "pid "@ + text::decimal_int(pids.last() as int) + "  "@ + ver
                        + ", not a tmux pane: "@ + nonpane_note(e.arguments(pids.last()), agents),
                )
            } else {
                rest
            },
            None => rest,
        }
    }
}

/// Does any of the processes run another version than the installed one?
pub open spec fn any_stale<E: Env>(pids: Seq<i32>, newver: Seq<char>, e: &E) -> bool {
    exists|i: int|
        0 <= i < pids.len() && (match #[trigger] e.version(pids[i]) {
            Some(ver) => ver != newver,
            None => false,
        })
}

fn note(f: &Vec<String>, ver: &str, why: &str) -> (r: String)
    requires
        f@.len() >= 7,
    ensures
        r@ == noted(text::texts(f@), ver@, why@),
{
    assert(text::texts(f@)[0] == f@[0]@ && text::texts(f@)[1] == f@[1]@);
    let mut t = f[0].clone();
    t.append(" ");
    t.append(&f[1]);
    t.append("  ");
    t.append(ver);
    t.append(", ");
    t.append(why);
    t
}

fn choose_transcript<E: Env>(f: &Vec<String>, ccwd: &str, o: &Opts, e: &E) -> (r: Result<
    (String, String),
    String,
>)
    requires
        f@.len() >= 7,
        ccwd@ == session_dir(text::texts(f@), e),
    ensures
        match r {
            Ok((t, via)) => chosen(text::texts(f@), o@, e) == Ok::<(Seq<char>, Seq<char>), Seq<char>>((t@, via@)),
            Err(why) => chosen(text::texts(f@), o@, e) == Err::<(Seq<char>, Seq<char>), Seq<char>>(why@),
        },
{
    assert(text::texts(f@)[0] == f@[0]@ && text::texts(f@)[6] == f@[6]@);
    match &o.force_transcript {
        Some(t) => Ok((t.clone(), "--transcript, given".to_owned())),
        None => {
            let pid: i32 = conv::pid_of(f);
            match e.resolve(&f[0], ccwd, &f[6], pid) {
                Ok(t) => match text::split_once(&t, '\t') {
                    Some((path, why)) => Ok((path, why)),
                    None => {
                        let none = String::new();
                        assert(none@ =~= Seq::<char>::empty());
                        Ok((t, none))
                    },
                },
                Err(why) => Err(why),
            }
        },
    }
}

fn is_quiet<E: Env>(screen: &str, transcript: &str, o: &Opts, e: &E) -> (r: Result<(), String>)
    ensures
        verdict_view(r) == quiet(screen@, transcript@, o@, e),
{
    match screen_has_no_dialog(screen) {
        Err(why) => Err(why),
        Ok(()) => {
            if o.include_busy {
                return Ok(());
            }
            match screen_has_no_draft(screen) {
                Err(why) => Err(why),
                Ok(()) => match e.read_transcript(transcript) {
                    Some(t) => transcript_is_settled(&t, e.now()),
                    None => Ok(()),
                },
            }
        },
    }
}

/// One pane judged, and the plan and the claims with it.
fn judge<E: Env>(
    f: &Vec<String>,
    ver: &str,
    newver: &str,
    o: &Opts,
    e: &E,
    p: &mut Plan,
    claimed: &mut Table,
)
    requires
        f@.len() >= 7,
    ensures
        final(p).agent == old(p).agent,
        final(p).newver == old(p).newver,
        final(p).launcher == old(p).launcher,
        ({
            let fs = text::texts(f@);
            let v = verdict(fs, ver@, newver@, o@, e, old(claimed)@);
            let d = blank_draft();
            let was = Draft {
                go: planned_view(old(p).go@),
                skipped: text::texts(old(p).skipped@),
                unresolved: old(p).unresolved,
                claimed: old(claimed)@,
                ..d
            };
            let now = taken(was, fs[0], v);
            &&& planned_view(final(p).go@) == now.go
            &&& text::texts(final(p).skipped@) == now.skipped
            &&& final(p).unresolved == now.unresolved
            &&& final(claimed)@ == now.claimed
        }),
{
    let ghost fs = text::texts(f@);
    let ghost skipped = p.skipped@;
    assert(fs[0] == f@[0]@ && fs[1] == f@[1]@ && fs[2] == f@[2]@ && fs[6] == f@[6]@);
    assert(text::texts(o.only_panes@).len() == o.only_panes@.len());
    if o.only_panes.len() > 0 && !listed(&o.only_panes, &f[0]) {
        return;
    }
    if same(ver, newver) {
        return;
    }
    if same(&f[0], &o.self_pane) {
        let t = note(
            f,
            ver,
            "this pane: restart it by hand (killing it would kill taimux)",
        );
        proof {
            text::lemma_texts_push(skipped, t);
        }
        p.skipped.push(t);
        return;
    }
    let pid: i32 = conv::pid_of(f);
    let screen = e.capture(&f[0]);
    let hook = e.hook_state(&f[0], pid);
    let st = match &hook {
        Some(h) => state::merge(&screen, Some(h.as_str()), o.agent.spoken),
        None => state::merge(&screen, None, o.agent.spoken),
    };
    if st != State::Idle && !o.include_busy {
        let mut why = st.as_str().to_owned();
        why.append(": rerun when idle, or --include-busy");
        let t = note(f, ver, &why);
        proof {
            text::lemma_texts_push(skipped, t);
        }
        p.skipped.push(t);
        return;
    }
    let ccwd = match e.cwd_of(pid) {
        Some(d) => d,
        None => f[2].clone(),
    };
    match choose_transcript(f, &ccwd, o, e) {
        Err(w) => {
            let mut why = "unresolved: ".to_owned();
            why.append(&w);
            let t = note(f, ver, &why);
            proof {
                text::lemma_texts_push(skipped, t);
            }
            p.skipped.push(t);
            p.unresolved = true;
        },
        Ok((transcript, via)) => match is_quiet(&screen, &transcript, o, e) {
            Err(w) => {
                let mut why = "not settled: ".to_owned();
                why.append(&w);
                let t = note(f, ver, &why);
                proof {
                    text::lemma_texts_push(skipped, t);
                }
                p.skipped.push(t);
            },
            Ok(()) => match claimed.get(&transcript) {
                Some(first) => {
                    let mut why = "resolves to the same transcript as ".to_owned();
                    why.append(&first);
                    let t = note(f, ver, &why);
                    proof {
                        text::lemma_texts_push(skipped, t);
                    }
                    p.skipped.push(t);
                },
                None => {
                    let argv = e.argv_of(pid);
                    let cmd = conv::build_cmd(
                        o.agent.name,
                        argv.as_slice(),
                        &transcript,
                        &ccwd,
                        &f[2],
                    );
                    claimed.insert(transcript, f[0].clone());
                    match cmd {
                        None => {
                            let t = note(f, ver, "could not read its argv");
                            proof {
                                text::lemma_texts_push(skipped, t);
                            }
                            p.skipped.push(t);
                        },
                        Some(cmd) => {
                            let mut how = ver.to_owned();
                            how.append(" -> ");
                            how.append(newver);
                            how.append(", ");
                            how.append(&via);
                            how.append(", ");
                            how.append(st.as_str());
                            let g = Planned {
                                pane: f[0].clone(),
                                target: f[1].clone(),
                                pid,
                                cmd,
                                title: f[6].clone(),
                                via: how,
                            };
                            let ghost before = p.go@;
                            p.go.push(g);
                            assert(planned_view(before.push(g)) =~= planned_view(before).push(g@));
                        },
                    }
                },
            },
        },
    }
}

/// The session processes that the pane scan accounts for.
fn sweep<E: Env>(
    rows: &str,
    newver: &str,
    launcher: &str,
    o: &Opts,
    e: &E,
) -> (r: (Plan, Vec<i32>))
    ensures
        r.0.agent@ == o.agent.name@,
        r.0.newver@ == newver@,
        r.0.launcher@ == launcher@,
        ({
            let d = drafted(text::lines_of(rows@), newver@, o@, e);
            &&& planned_view(r.0.go@) == d.go
            &&& text::texts(r.0.skipped@) == d.skipped
            &&& r.0.unresolved == d.unresolved
            &&& r.1@ == d.matched
        }),
{
    let mut p = Plan {
        agent: o.agent.name.to_owned(),
        newver: newver.to_owned(),
        launcher: launcher.to_owned(),
        go: Vec::new(),
        skipped: Vec::new(),
        unresolved: false,
    };
    let mut claimed = Table::new();
    let mut matched: Vec<i32> = Vec::new();
    let ls = lines(rows);
    let ghost all = text::texts(ls@);
    let mut i: usize = 0;
    assert(planned_view(p.go@) =~= Seq::empty());
    assert(text::texts(p.skipped@) =~= Seq::empty());
    assert(all.take(0) =~= Seq::empty());
    while i < ls.len()
        invariant
            i <= ls@.len(),
            all == text::texts(ls@),
            p.agent@ == o.agent.name@,
            p.newver@ == newver@,
            p.launcher@ == launcher@,
            ({
                let d = drafted(all.take(i as int), newver@, o@, e);
                &&& planned_view(p.go@) == d.go
                &&& text::texts(p.skipped@) == d.skipped
                &&& p.unresolved == d.unresolved
                &&& claimed@ == d.claimed
                &&& matched@ == d.matched
            }),
        decreases ls@.len() - i,
    {
        assert(all.take(i + 1).drop_last() =~= all.take(i as int));
        assert(all.take(i + 1).last() == ls@[i as int]@);
        let f = split(&ls[i], '\t');
        let ghost fs = text::texts(f@);
        assert(fs.len() == f@.len());
        if f.len() >= 7 {
            assert(fs[3] == f@[3]@);
            if same(&f[3], o.agent.name) {
                let pid: i32 = conv::pid_of(&f);
                let ver = if pid == 0 {
                    None
                } else {
                    e.version_of_pid(pid)
                };
                match ver {
                    None => {
                        assert(fs[0] == f@[0]@ && fs[1] == f@[1]@);
                        let mut t = f[0].clone();
                        t.append(" ");
                        t.append(&f[1]);
                        t.append("  looks like ");
                        t.append(o.agent.name);
                        t.append(" but no session process was found under the pane");
                        proof {
                            text::lemma_texts_push(p.skipped@, t);
                        }
                        p.skipped.push(t);
                    },
                    Some(ver) => {
                        matched.push(pid);
                        judge(&f, &ver, newver, o, e, &mut p, &mut claimed);
                    },
                }
            }
        }
        i = i + 1;
    }
    assert(all.take(all.len() as int) =~= all);
    (p, matched)
}

/// Is there a stale session without a pane that has to be named? Only then is the
/// list of agents worth fetching: the agent's command line takes seconds to start.
pub fn wants_agents<E: Env>(
    rows: &str,
    newver: &str,
    o: &Opts,
    e: &E,
    versions_dir: &str,
    processes: &Vec<Process>,
) -> (r: bool)
    ensures
        r == any_stale(
            order::ascending(
                strays(
                    o.agent.name@,
                    processes_view(processes@),
                    drafted(text::lines_of(rows@), newver@, o@, e).matched,
                    versions_dir@,
                ),
            ),
            newver@,
            e,
        ),
{
    let (_, matched) = sweep(rows, newver, "", o, e);
    let pids = nonpane_pids(o.agent.name, &matched, versions_dir, processes);
    let ghost stale = any_stale(pids@, newver@, e);
    let mut i: usize = 0;
    while i < pids.len()
        invariant
            i <= pids@.len(),
            stale == any_stale(pids@, newver@, e),
            stale == any_stale(
                order::ascending(
                    strays(
                        o.agent.name@,
                        processes_view(processes@),
                        drafted(text::lines_of(rows@), newver@, o@, e).matched,
                        versions_dir@,
                    ),
                ),
                newver@,
                e,
            ),
            forall|k: int|
                0 <= k < i ==> !(match #[trigger] e.version(pids@[k]) {
                    Some(ver) => ver != newver@,
                    None => false,
                }),
        decreases pids@.len() - i,
    {
        if let Some(ver) = e.version_of_pid(pids[i]) {
            if !same(&ver, newver) {
                return true;
            }
        }
        i = i + 1;
    }
    false
}

/// Decide what to restart, and say why for everything else.
///
/// `processes` is what runs on the machine, and `agents` the list of agents as
/// the agent's command line prints it: it is read only where `wants_agents` says
/// that a stale session without a pane has to be named.
pub fn plan<E: Env>(
    rows: &str,
    newver: &str,
    launcher: &str,
    o: &Opts,
    e: &E,
    versions_dir: &str,
    processes: &Vec<Process>,
    agents: &str,
) -> (r: Plan)
    ensures
        r.agent@ == o.agent.name@,
        r.newver@ == newver@,
        r.launcher@ == launcher@,
        ({
            let d = drafted(text::lines_of(rows@), newver@, o@, e);
            let pids = order::ascending(strays(o.agent.name@, processes_view(processes@), d.matched, versions_dir@));
            &&& planned_view(r.go@) == d.go
            &&& text::texts(r.skipped@) == d.skipped + stray_notes(pids, newver@, e, agents@)
            &&& r.unresolved == d.unresolved
        }),
{
    let (mut p, matched) = sweep(rows, newver, launcher, o, e);
    let ghost d = drafted(text::lines_of(rows@), newver@, o@, e);
    let pids = nonpane_pids(o.agent.name, &matched, versions_dir, processes);
    let mut i: usize = 0;
    assert(d.skipped + stray_notes(pids@.take(0), newver@, e, agents@) =~= d.skipped);
    while i < pids.len()
        invariant
            i <= pids@.len(),
            p.agent@ == o.agent.name@,
            p.newver@ == newver@,
            p.launcher@ == launcher@,
            planned_view(p.go@) == d.go,
            p.unresolved == d.unresolved,
            text::texts(p.skipped@) == d.skipped + stray_notes(
                pids@.take(i as int),
                newver@,
                e,
                agents@,
            ),
        decreases pids@.len() - i,
    {
        assert(pids@.take(i + 1).drop_last() =~= pids@.take(i as int));
        assert(pids@.take(i + 1).last() == pids@[i as int]);
        let pid: i32 = pids[i];
        if let Some(ver) = e.version_of_pid(pid) {
            if !same(&ver, newver) {
                let mut t = "pid ".to_owned();
                let n = text::dec_int(pid as i64);
                t.append(&n);
                t.append("  ");
                t.append(&ver);
                t.append(", not a tmux pane: ");
                let argv = e.argv_of(pid);
                let what = describe_nonpane(argv.as_slice(), agents);
                t.append(&what);
                let ghost rest = stray_notes(pids@.take(i as int), newver@, e, agents@);
                proof {
                    text::lemma_texts_push(p.skipped@, t);
                }
                p.skipped.push(t);
                assert((d.skipped + rest).push(t@) =~= d.skipped + rest.push(t@));
            }
        }
        i = i + 1;
    }
    assert(pids@.take(pids@.len() as int) =~= pids@);
    p
}

// ---------------------------------------------------------------------------
// The plan in words
// ---------------------------------------------------------------------------
pub open spec fn blanks(n: int) -> Seq<char>
    decreases n,
{
    if n <= 0 {
        Seq::empty()
    } else {
        blanks(n - 1).push(' ')
    }
}

/// A text with spaces behind it, up to `n` characters.
pub open spec fn padded(s: Seq<char>, n: int) -> Seq<char> {
    s + blanks(n - s.len())
}

fn pad(s: &str, n: usize) -> (r: String)
    ensures
        r@ == padded(s@, n as int),
{
    let have: usize = s.unicode_len();
    let mut t = s.to_owned();
    let mut i: usize = have;
    assert(t@ + blanks(0) =~= t@);
    while i < n
        invariant
            have == s@.len(),
            i >= have,
            have <= n ==> i <= n,
            have > n ==> i == have,
            t@ == s@ + blanks(i - have),
        decreases n - i,
    {
        t.push(' ');
        assert(t@ =~= s@ + blanks(i + 1 - have));
        i = i + 1;
    }
    if have > n {
        assert(t@ =~= s@ + blanks(n - have));
    }
    t
}

/// The three lines on a pane to be restarted.
pub open spec fn go_lines(g: PlannedView) -> Seq<char> {
    "  "@ + padded(g.pane, 5) + " "@ + padded(g.target, 14) + " "@ + g.title + "\n        "@ + g.via
        + "\n        "@ + g.cmd + "\n"@
}

pub open spec fn all_go_lines(go: Seq<PlannedView>) -> Seq<char>
    decreases go.len(),
{
    if go.len() == 0 {
        Seq::empty()
    } else {
        all_go_lines(go.drop_last()) + go_lines(go.last())
    }
}

pub open spec fn skip_lines(skipped: Seq<Seq<char>>) -> Seq<char>
    decreases skipped.len(),
{
    if skipped.len() == 0 {
        Seq::empty()
    } else {
        skip_lines(skipped.drop_last()) + ("  "@ + skipped.last() + "\n"@)
    }
}

pub const BY_HAND: &'static str = "\nAn unresolved pane means guessing, so it was left alone: restart it by hand\nwith `";

pub const BY_PICKER: &'static str = " -c` in that pane, or from its /resume picker. Each session records\nits pane at the next SessionStart, so a pane resolves cleanly once restarted.\n";

/// The plan, as the reader sees it.
pub open spec fn rendered(
    agent: Seq<char>,
    newver: Seq<char>,
    launcher: Seq<char>,
    go: Seq<PlannedView>,
    skipped: Seq<Seq<char>>,
    unresolved: bool,
) -> Seq<char> {
    let a = agent + ": "@ + newver + " installed at "@ + launcher + "\n\n"@;
    let b = if go.len() == 0 {
        a + "nothing to restart.\n"@
    } else {
        a + "to restart ("@ + text::decimal(go.len()) + "):\n"@ + all_go_lines(go)
    };
    let c = if skipped.len() == 0 {
        b
    } else {
        b + "\nskipped ("@ + text::decimal(skipped.len()) + "):\n"@ + skip_lines(skipped)
    };
    if unresolved {
        c + BY_HAND@ + agent + BY_PICKER@
    } else {
        c
    }
}

fn render_go(g: &Planned) -> (r: String)
    ensures
        r@ == go_lines(g@),
{
    let mut s = "  ".to_owned();
    let a = pad(&g.pane, 5);
    s.append(&a);
    s.append(" ");
    let b = pad(&g.target, 14);
    s.append(&b);
    s.append(" ");
    s.append(&g.title);
    s.append("\n        ");
    s.append(&g.via);
    s.append("\n        ");
    s.append(&g.cmd);
    s.append("\n");
    s
}

/// The plan, as the reader sees it.
pub fn render(p: &Plan) -> (r: String)
    ensures
        r@ == rendered(
            p.agent@,
            p.newver@,
            p.launcher@,
            planned_view(p.go@),
            text::texts(p.skipped@),
            p.unresolved,
        ),
{
    let mut s = p.agent.clone();
    s.append(": ");
    s.append(&p.newver);
    s.append(" installed at ");
    s.append(&p.launcher);
    s.append("\n\n");
    let ghost go = planned_view(p.go@);
    let ghost skipped = text::texts(p.skipped@);
    assert(go.len() == p.go@.len() && skipped.len() == p.skipped@.len());
    if p.go.len() == 0 {
        s.append("nothing to restart.\n");
    } else {
        s.append("to restart (");
        let n = dec(p.go.len() as u64);
        s.append(&n);
        s.append("):\n");
        let mut all = String::new();
        let mut i: usize = 0;
        assert(all@ =~= all_go_lines(go.take(0)));
        while i < p.go.len()
            invariant
                i <= p.go@.len(),
                go == planned_view(p.go@),
                all@ == all_go_lines(go.take(i as int)),
            decreases p.go@.len() - i,
        {
            assert(go.take(i + 1).drop_last() =~= go.take(i as int));
            assert(go.take(i + 1).last() == p.go@[i as int]@);
            let t = render_go(&p.go[i]);
            all.append(&t);
            i = i + 1;
        }
        assert(go.take(go.len() as int) =~= go);
        s.append(&all);
    }
    if p.skipped.len() > 0 {
        s.append("\nskipped (");
        let n = dec(p.skipped.len() as u64);
        s.append(&n);
        s.append("):\n");
        let mut all = String::new();
        let mut i: usize = 0;
        assert(all@ =~= skip_lines(skipped.take(0)));
        while i < p.skipped.len()
            invariant
                i <= p.skipped@.len(),
                skipped == text::texts(p.skipped@),
                all@ == skip_lines(skipped.take(i as int)),
            decreases p.skipped@.len() - i,
        {
            assert(skipped.take(i + 1).drop_last() =~= skipped.take(i as int));
            assert(skipped.take(i + 1).last() == p.skipped@[i as int]@);
            let mut t = "  ".to_owned();
            t.append(&p.skipped[i]);
            t.append("\n");
            all.append(&t);
            i = i + 1;
        }
        assert(skipped.take(skipped.len() as int) =~= skipped);
        s.append(&all);
    }
    if p.unresolved {
        s.append(BY_HAND);
        s.append(&p.agent);
        s.append(BY_PICKER);
    }
    s
}

// ---------------------------------------------------------------------------
// Typing the restart
// ---------------------------------------------------------------------------
/// How long a session that was interrupted has been waited for.
#[derive(Clone, Copy, Debug, PartialEq, Eq, Structural)]
pub struct Waiting {
    pub waited: u32,
    pub sent_exit: bool,
}

/// What is due after one more wait that left the session running.
#[derive(Clone, Copy, Debug, PartialEq, Eq, Structural)]
pub struct Due {
    /// `/exit` is typed at it, for a session that ignores both Ctrl-Cs.
    pub exit: bool,
    /// It is given up: nothing is typed into a pane that still has a session.
    pub give_up: bool,
}

/// The wait after `n` ticks.
pub open spec fn waiting_after(n: nat) -> Waiting {
    Waiting { waited: n as u32, sent_exit: n >= 6 }
}

impl Waiting {
    /// What is due after one more tick.
    pub open spec fn due(self) -> Due {
        Due { exit: self.waited + 1 >= 6 && !self.sent_exit, give_up: self.waited + 1 >= 30 }
    }

    pub fn start() -> (r: Waiting)
        ensures
            r == waiting_after(0),
    {
        Waiting { waited: 0, sent_exit: false }
    }

    /// One more wait is over and the session is still there. `/exit` comes after
    /// six waits and thirty are where it gives up.
    pub fn tick(&mut self) -> (r: Due)
        requires
            old(self).waited < 30,
        ensures
            r == old(self).due(),
            final(self).waited == old(self).waited + 1,
            final(self).sent_exit == (old(self).sent_exit || r.exit),
    {
        self.waited = self.waited + 1;
        let exit = self.waited >= 6 && !self.sent_exit;
        if exit {
            self.sent_exit = true;
        }
        Due { exit, give_up: self.waited >= 30 }
    }
}

/// `/exit` is typed once, after the sixth wait, and the thirtieth wait is the last.
pub proof fn lemma_exit_is_typed_once(n: nat)
    requires
        n < 30,
    ensures
        waiting_after(n).due().exit == (n + 1 == 6),
        waiting_after(n).due().give_up == (n + 1 == 30),
        waiting_after(n + 1).waited == waiting_after(n).waited + 1,
        waiting_after(n + 1).sent_exit == (waiting_after(n).sent_exit || waiting_after(
            n,
        ).due().exit),
{
}

pub open spec fn typed(pane: Seq<char>, keys: Seq<char>, enter: bool) -> Seq<Seq<char>> {
    let base = seq!["send-keys"@, "-t"@, pane, keys];
    if enter {
        base.push("Enter"@)
    } else {
        base
    }
}

/// The tmux arguments that type something into a pane: a key such as `C-c`, or a
/// line and Enter behind it.
pub fn send_keys(pane: &str, keys: &str, enter: bool) -> (r: Vec<String>)
    ensures
        text::texts(r@) == typed(pane@, keys@, enter),
{
    let mut v: Vec<String> = Vec::new();
    v.push("send-keys".to_owned());
    v.push("-t".to_owned());
    v.push(pane.to_owned());
    v.push(keys.to_owned());
    if enter {
        v.push("Enter".to_owned());
    }
    assert(text::texts(v@) =~= typed(pane@, keys@, enter));
    v
}

// ---------------------------------------------------------------------------
// Laws
// ---------------------------------------------------------------------------
/// A pane that is to be restarted runs another version than the installed one, is
/// not the pane taimux itself runs in, has no dialog on its screen, and resumes a
/// transcript that no pane before it has claimed. Unless busy ones were asked for,
/// its session is idle, with no unsent draft and a settled transcript.
pub proof fn lemma_only_a_safe_pane_is_restarted<E: Env>(
    f: Seq<Seq<char>>,
    ver: Seq<char>,
    newver: Seq<char>,
    o: OptsView,
    e: &E,
    claimed: Map<Seq<char>, Seq<char>>,
)
    ensures
        match verdict(f, ver, newver, o, e, claimed) {
            Verdict::Go(p, t) => {
                &&& p.pane == f[0]
                &&& ver != newver
                &&& f[0] != o.self_pane
                &&& wanted(f, o)
                &&& no_dialog(e.screen(f[0])) is Ok
                &&& !claimed.dom().contains(t)
                &&& !o.include_busy ==> {
                    &&& state::merged(
                        e.screen(f[0]),
                        e.hooked(f[0], conv::row_pid(f)),
                        o.agent.spoken,
                    ) == State::Idle
                    &&& no_draft(e.screen(f[0])) is Ok
                    &&& (match e.transcript(t) {
                        Some(text) => settled(text, e.clock() as int) is Ok,
                        None => true,
                    })
                }
            },
            _ => true,
        },
{
}

/// A stale pane that was asked about is either restarted or left alone with a
/// reason: it is never passed over in silence.
pub proof fn lemma_a_stale_pane_is_restarted_or_explained<E: Env>(
    d: Draft,
    line: Seq<char>,
    newver: Seq<char>,
    o: OptsView,
    e: &E,
)
    requires
        conv::claude_row(o.agent.name, text::fields(line, '\t')),
        wanted(text::fields(line, '\t'), o),
        running(text::fields(line, '\t'), e) != Some(newver),
    ensures
        ({
            let next = with_row(d, line, newver, o, e);
            next.go.len() + next.skipped.len() == d.go.len() + d.skipped.len() + 1
        }),
{
}

/// One conversation is never resumed into two panes.
pub proof fn lemma_one_conversation_one_pane<E: Env>(
    ls: Seq<Seq<char>>,
    newver: Seq<char>,
    o: OptsView,
    e: &E,
)
    ensures
        ({
            let d = drafted(ls, newver, o, e);
            &&& d.resumed.len() == d.go.len()
            &&& d.resumed.no_duplicates()
            &&& forall|i: int|
                0 <= i < d.resumed.len() ==> #[trigger] d.claimed.dom().contains(d.resumed[i])
        }),
    decreases ls.len(),
{
    if ls.len() > 0 {
        lemma_one_conversation_one_pane(ls.drop_last(), newver, o, e);
        let was = drafted(ls.drop_last(), newver, o, e);
        let d = drafted(ls, newver, o, e);
        assert forall|i: int| 0 <= i < d.resumed.len() implies #[trigger] d.claimed.dom().contains(
            d.resumed[i],
        ) by {
            if i < was.resumed.len() {
                assert(was.claimed.dom().contains(was.resumed[i]));
            }
        }
        assert forall|i: int, j: int| 0 <= i < d.resumed.len() && 0 <= j < d.resumed.len() && i != j implies d.resumed[i] != d.resumed[j] by {
            if i < was.resumed.len() {
                assert(was.claimed.dom().contains(was.resumed[i]));
            }
            if j < was.resumed.len() {
                assert(was.claimed.dom().contains(was.resumed[j]));
            }
        }
    }
}

/// Is it the row of a session of the agent that has a process, running that version?
pub open spec fn is_session<E: Env>(
    f: Seq<Seq<char>>,
    agent: Seq<char>,
    pid: i32,
    ver: Seq<char>,
    e: &E,
) -> bool {
    &&& f.len() >= 7
    &&& f[3] == agent
    &&& text::integer(f[4]) == Some(pid as int)
    &&& pid != 0
    &&& e.version(pid) == Some(ver)
}

/// A stale session that was named, or that nothing was named beside, gets exactly one
/// answer: it is restarted, or a line that opens with its pane says why not.
pub proof fn lemma_a_named_pane_gets_one_answer<E: Env>(
    d: Draft,
    line: Seq<char>,
    newver: Seq<char>,
    o: OptsView,
    e: &E,
    pid: i32,
    ver: Seq<char>,
)
    requires
        is_session(text::fields(line, '\t'), o.agent.name, pid, ver, e),
        ver != newver,
        o.only_panes.len() == 0 || o.only_panes.contains(text::fields(line, '\t')[0]),
    ensures
        ({
            let f = text::fields(line, '\t');
            let next = with_row(d, line, newver, o, e);
            ||| {
                &&& next.skipped == d.skipped
                &&& next.go.len() == d.go.len() + 1
                &&& next.go.drop_last() == d.go
                &&& next.go.last().pane == f[0]
                &&& next.go.last().target == f[1]
                &&& next.go.last().pid == pid
                &&& next.go.last().title == f[6]
            }
            ||| {
                &&& next.go == d.go
                &&& next.skipped.len() == d.skipped.len() + 1
                &&& next.skipped.drop_last() == d.skipped
                &&& (f[0] + " "@ + f[1] + "  "@ + ver + ", "@).is_prefix_of(next.skipped.last())
            }
        }),
{
    let f = text::fields(line, '\t');
    let next = with_row(d, line, newver, o, e);
    let head = f[0] + " "@ + f[1] + "  "@ + ver + ", "@;
    if next.go == d.go {
        let said = next.skipped.last();
        assert(next.skipped.drop_last() =~= d.skipped);
        assert(head.is_prefix_of(said)) by {
            assert(said.subrange(0, head.len() as int) =~= head);
        }
    } else {
        assert(next.go.drop_last() =~= d.go);
    }
}

/// A session that was not named where others were, or that runs the installed version,
/// is neither restarted nor spoken of.
pub proof fn lemma_the_others_are_left_alone<E: Env>(
    d: Draft,
    line: Seq<char>,
    newver: Seq<char>,
    o: OptsView,
    e: &E,
    pid: i32,
    ver: Seq<char>,
)
    requires
        is_session(text::fields(line, '\t'), o.agent.name, pid, ver, e),
        ver == newver || (o.only_panes.len() > 0 && !o.only_panes.contains(
            text::fields(line, '\t')[0],
        )),
    ensures
        with_row(d, line, newver, o, e).go == d.go,
        with_row(d, line, newver, o, e).skipped == d.skipped,
        with_row(d, line, newver, o, e).claimed == d.claimed,
{
}

/// A stale session that passes every guard is restarted, by the command that resumes
/// the conversation it is on: it is not the pane that asks, it is idle, no dialog and no
/// draft is on its screen, its transcript has settled, and nothing else is to be
/// restarted on it.
pub proof fn lemma_a_pane_that_passes_every_guard_is_restarted<E: Env>(
    d: Draft,
    line: Seq<char>,
    newver: Seq<char>,
    o: OptsView,
    e: &E,
    pid: i32,
    ver: Seq<char>,
    t: Seq<char>,
    why: Seq<char>,
    dir: Seq<char>,
)
    requires
        is_session(text::fields(line, '\t'), o.agent.name, pid, ver, e),
        ver != newver,
        o.only_panes.len() == 0 || o.only_panes.contains(text::fields(line, '\t')[0]),
        text::fields(line, '\t')[0] != o.self_pane,
        o.include_busy || state::merged(
            e.screen(text::fields(line, '\t')[0]),
            e.hooked(text::fields(line, '\t')[0], pid),
            o.agent.spoken,
        ) == State::Idle,
        dir == (match e.directory(pid) {
            Some(own) => own,
            None => text::fields(line, '\t')[2],
        }),
        t.len() > 0,
        o.force_transcript == Some(t) || (o.force_transcript is None && text::free_of(t, '\t')
            && e.conversation(
            text::fields(line, '\t')[0],
            dir,
            text::fields(line, '\t')[6],
            pid,
        ) == Ok::<Seq<char>, Seq<char>>(t + seq!['\t'] + why)),
        no_dialog(e.screen(text::fields(line, '\t')[0])) is Ok,
        o.include_busy || no_draft(e.screen(text::fields(line, '\t')[0])) is Ok,
        o.include_busy || e.transcript(t) is None || settled(
            e.transcript(t)->0,
            e.clock() as int,
        ) is Ok,
        !d.claimed.dom().contains(t),
        e.arguments(pid).len() > 0,
    ensures
        ({
            let f = text::fields(line, '\t');
            let next = with_row(d, line, newver, o, e);
            &&& next.go.len() == d.go.len() + 1
            &&& next.go.drop_last() == d.go
            &&& next.go.last().pane == f[0]
            &&& next.go.last().pid == pid
            &&& conv::command(o.agent.name, e.arguments(pid), t, dir, f[2]) == Some(
                next.go.last().cmd,
            )
            &&& (" --resume "@ + crate::tmux::quoted(t)).is_suffix_of(next.go.last().cmd)
            &&& next.claimed.dom().contains(t)
            &&& next.claimed[t] == f[0]
        }),
{
    let f = text::fields(line, '\t');
    if o.force_transcript is None {
        let whole = t + seq!['\t'] + why;
        text::lemma_find_char(whole, '\t', 0);
        let i = t.len() as int;
        assert(whole[i] == '\t');
        let at = text::find_char(whole, '\t', 0)->0;
        if at < i {
            assert(whole[at] == t[at]);
        }
        assert(whole.take(i) =~= t);
    }
    let next = with_row(d, line, newver, o, e);
    assert(next.go.drop_last() =~= d.go);
    conv::lemma_a_command_ends_in_its_conversation(
        o.agent.name,
        e.arguments(pid),
        t,
        dir,
        f[2],
    );
}

proof fn lemma_a_draft_only_grows<E: Env>(
    ls: Seq<Seq<char>>,
    n: int,
    newver: Seq<char>,
    o: OptsView,
    e: &E,
)
    requires
        0 <= n <= ls.len(),
    ensures
        drafted(ls.take(n), newver, o, e).go.is_prefix_of(drafted(ls, newver, o, e).go),
        drafted(ls.take(n), newver, o, e).skipped.is_prefix_of(drafted(ls, newver, o, e).skipped),
    decreases ls.len() - n,
{
    let all = drafted(ls, newver, o, e);
    if n == ls.len() {
        assert(ls.take(n) =~= ls);
        assert(all.go.subrange(0, all.go.len() as int) =~= all.go);
        assert(all.skipped.subrange(0, all.skipped.len() as int) =~= all.skipped);
    } else {
        let a = drafted(ls.take(n), newver, o, e);
        let b = drafted(ls.take(n + 1), newver, o, e);
        assert(ls.take(n + 1).drop_last() =~= ls.take(n));
        lemma_a_draft_only_grows(ls, n + 1, newver, o, e);
        assert(b == with_row(a, ls.take(n + 1).last(), newver, o, e));
        assert(b.go.subrange(0, a.go.len() as int) =~= a.go);
        assert(b.skipped.subrange(0, a.skipped.len() as int) =~= a.skipped);
        assert(all.go.subrange(0, a.go.len() as int) =~= all.go.subrange(
            0,
            b.go.len() as int,
        ).subrange(0, a.go.len() as int));
        assert(all.skipped.subrange(0, a.skipped.len() as int) =~= all.skipped.subrange(
            0,
            b.skipped.len() as int,
        ).subrange(0, a.skipped.len() as int));
    }
}

/// No stale session that was asked about is missing from the plan: its pane is one of
/// those to be restarted, or a line of the plan opens with it.
pub proof fn lemma_the_plan_speaks_of_every_named_pane<E: Env>(
    ls: Seq<Seq<char>>,
    k: int,
    newver: Seq<char>,
    o: OptsView,
    e: &E,
    pid: i32,
    ver: Seq<char>,
)
    requires
        0 <= k < ls.len(),
        is_session(text::fields(ls[k], '\t'), o.agent.name, pid, ver, e),
        ver != newver,
        o.only_panes.len() == 0 || o.only_panes.contains(text::fields(ls[k], '\t')[0]),
    ensures
        ({
            let pane = text::fields(ls[k], '\t')[0];
            let d = drafted(ls, newver, o, e);
            ||| exists|j: int| 0 <= j < d.go.len() && (#[trigger] d.go[j]).pane == pane
            ||| exists|j: int|
                0 <= j < d.skipped.len() && (pane + " "@).is_prefix_of(#[trigger] d.skipped[j])
        }),
{
    let f = text::fields(ls[k], '\t');
    let was = drafted(ls.take(k), newver, o, e);
    let next = drafted(ls.take(k + 1), newver, o, e);
    let d = drafted(ls, newver, o, e);
    assert(ls.take(k + 1).drop_last() =~= ls.take(k));
    assert(ls.take(k + 1).last() == ls[k]);
    lemma_a_named_pane_gets_one_answer(was, ls[k], newver, o, e, pid, ver);
    lemma_a_draft_only_grows(ls, k + 1, newver, o, e);
    if next.go.len() == was.go.len() + 1 {
        let j = was.go.len() as int;
        assert(d.go[j] == d.go.subrange(0, next.go.len() as int)[j]);
        assert(d.go[j].pane == f[0]);
    } else {
        let j = was.skipped.len() as int;
        assert(d.skipped[j] == d.skipped.subrange(0, next.skipped.len() as int)[j]);
        let head = f[0] + " "@ + f[1] + "  "@ + ver + ", "@;
        let said = d.skipped[j];
        assert(head.is_prefix_of(said));
        assert(said.subrange(0, (f[0] + " "@).len() as int) =~= said.subrange(
            0,
            head.len() as int,
        ).subrange(0, (f[0] + " "@).len() as int));
        assert((f[0] + " "@).is_prefix_of(said));
    }
}

/// A session that has been quiet stays fit to be restarted: what has settled by one moment
/// has settled by every later one, and a line that calls a tool never does.
pub proof fn lemma_what_settled_stays_settled(transcript: Seq<char>, now: int, later: int)
    requires
        now <= later,
        settled(transcript, now) is Ok,
    ensures
        settled(transcript, later) is Ok,
{
}

/// The last line that holds anything decides whether a transcript has settled: not while
/// it calls a tool, not for forty-five seconds after its own time, and from then on.
pub proof fn lemma_the_last_line_decides(transcript: Seq<char>, now: int, i: int, at: int)
    requires
        ({
            let ls = text::lines_of(transcript);
            &&& 0 <= i < ls.len()
            &&& !text::is_blank(ls[i])
            &&& forall|j: int| i < j < ls.len() ==> text::is_blank(#[trigger] ls[j])
        }),
    ensures
        ({
            let l = text::lines_of(transcript)[i];
            let tool = json::first_value(l, "type"@) == Some("assistant"@) && (text::has(
                l,
                "\"type\":\"tool_use\""@,
            ) || text::has(l, "\"type\": \"tool_use\""@));
            let stamp = json::first_value(l, "timestamp"@);
            &&& tool ==> settled(transcript, now) == Err::<(), Seq<char>>(
                "a tool call is still running"@,
            )
            &&& !tool && stamp is Some && epoch_seconds(stamp->0) == Some(at) && now - at < 45
                ==> settled(transcript, now) == Err::<(), Seq<char>>("active in the last 45s"@)
            &&& !tool && stamp is Some && epoch_seconds(stamp->0) == Some(at) && now - at >= 45
                ==> settled(transcript, now) is Ok
            &&& !tool && stamp is None ==> settled(transcript, now) is Ok
        }),
{
    let ls = text::lines_of(transcript);
    state::lemma_the_last_filled_line(ls, ls.len() as int, i);
    reveal_strlit("assistant");
    assert("assistant"@.len() == 9);
}

/// A draft in the prompt box is never thrown away: text behind the lowest prompt refuses a
/// restart, and so does a screen that shows something but no prompt. An empty prompt and
/// an empty screen do not.
pub proof fn lemma_a_draft_refuses(screen: Seq<char>, i: int, head: Seq<char>, after: Seq<char>)
    requires
        ({
            let ls = text::lines_of(screen);
            &&& 0 <= i < ls.len()
            &&& ls[i] == head + seq!['❯'] + after
            &&& text::free_of(head, '❯')
            &&& forall|j: int| i < j < ls.len() ==> !(#[trigger] ls[j]).contains('❯')
        }),
    ensures
        text::is_blank(after) ==> no_draft(screen) is Ok,
        !text::is_blank(after) ==> no_draft(screen) == Err::<(), Seq<char>>(
            "unsent text in the prompt box"@,
        ),
{
    let ls = text::lines_of(screen);
    let l = ls[i];
    let p = head.len() as int;
    assert(l[p] == '❯');
    assert(!text::is_space(l[p]));
    assert(!text::is_blank(l));
    lemma_some_line_is_filled(ls, ls.len() as int, i);
    state::lemma_the_lowest_prompt(ls, ls.len() as int, i);
    text::lemma_find_char(l, '❯', 0);
    let at = text::find_char(l, '❯', 0)->0;
    if at < p {
        assert(l[at] == head[at]);
    }
    assert(l.skip(p + 1) =~= after);
}

proof fn lemma_some_line_is_filled(ls: Seq<Seq<char>>, to: int, i: int)
    requires
        0 <= i < to <= ls.len(),
        !text::is_blank(ls[i]),
    ensures
        state::last_filled(ls, to) is Some,
    decreases to,
{
    if text::is_blank(ls[to - 1]) {
        lemma_some_line_is_filled(ls, to - 1, i);
    }
}

/// A screen without a prompt refuses a restart where it shows anything, and only there.
pub proof fn lemma_a_screen_without_a_prompt_refuses(screen: Seq<char>)
    requires
        forall|j: int|
            0 <= j < text::lines_of(screen).len() ==> !(#[trigger] text::lines_of(
                screen,
            )[j]).contains('❯'),
    ensures
        no_draft(screen) is Ok <==> forall|j: int|
            0 <= j < text::lines_of(screen).len() ==> text::is_blank(
                #[trigger] text::lines_of(screen)[j],
            ),
{
    let ls = text::lines_of(screen);
    state::lemma_no_prompt(ls, ls.len() as int);
    if forall|j: int| 0 <= j < ls.len() ==> text::is_blank(#[trigger] ls[j]) {
        state::lemma_no_filled_line(ls, ls.len() as int);
    } else {
        let j = choose|j: int| 0 <= j < ls.len() && !text::is_blank(#[trigger] ls[j]);
        lemma_some_line_is_filled(ls, ls.len() as int, j);
    }
}

/// A dialog refuses a restart whatever else is on the screen, and so does a first Ctrl-C
/// that waits for the second on the last line; a screen without either does not.
pub proof fn lemma_a_dialog_refuses(screen: Seq<char>, i: int)
    requires
        ({
            let ls = text::lines_of(screen);
            &&& 0 <= i < ls.len()
            &&& !text::is_blank(ls[i])
            &&& forall|j: int| i < j < ls.len() ==> text::is_blank(#[trigger] ls[j])
        }),
    ensures
        state::asking(screen) ==> no_dialog(screen) == Err::<(), Seq<char>>(
            "a dialog is waiting for an answer"@,
        ),
        !state::asking(screen) && text::has(
            text::lines_of(screen)[i],
            "Press Ctrl-C again to exit"@,
        ) ==> no_dialog(screen) == Err::<(), Seq<char>>("a Ctrl-C is already half-pressed"@),
        !state::asking(screen) && (forall|j: int|
            0 <= j < text::lines_of(screen).len() ==> !text::has(
                #[trigger] text::lines_of(screen)[j],
                "Press Ctrl-C again to exit"@,
            )) ==> no_dialog(screen) is Ok,
{
    let ls = text::lines_of(screen);
    if text::has(ls[i], "Press Ctrl-C again to exit"@) {
        lemma_pressed_on_the_last_line(ls, ls.len() as int, i);
    }
    if forall|j: int|
        0 <= j < ls.len() ==> !text::has(#[trigger] ls[j], "Press Ctrl-C again to exit"@) {
        lemma_never_pressed(ls, ls.len() as int, 4);
    }
}

proof fn lemma_pressed_on_the_last_line(ls: Seq<Seq<char>>, to: int, i: int)
    requires
        0 <= i < to <= ls.len(),
        !text::is_blank(ls[i]),
        text::has(ls[i], "Press Ctrl-C again to exit"@),
        forall|j: int| i < j < to ==> text::is_blank(#[trigger] ls[j]),
    ensures
        half_pressed(ls, to, 4),
    decreases to,
{
    if i < to - 1 {
        assert(text::is_blank(ls[to - 1]));
        lemma_pressed_on_the_last_line(ls, to - 1, i);
    }
}

proof fn lemma_never_pressed(ls: Seq<Seq<char>>, to: int, left: nat)
    requires
        to <= ls.len(),
        forall|j: int|
            0 <= j < ls.len() ==> !text::has(#[trigger] ls[j], "Press Ctrl-C again to exit"@),
    ensures
        !half_pressed(ls, to, left),
    decreases to,
{
    if 0 < to && left > 0 {
        assert(!text::has(ls[to - 1], "Press Ctrl-C again to exit"@));
        if text::is_blank(ls[to - 1]) {
            lemma_never_pressed(ls, to - 1, left);
        } else {
            lemma_never_pressed(ls, to - 1, (left - 1) as nat);
        }
    }
}

/// The first guard that a stale session fails is the reason that is given for leaving it
/// alone.
pub proof fn lemma_the_first_guard_is_the_reason<E: Env>(
    d: Draft,
    line: Seq<char>,
    newver: Seq<char>,
    o: OptsView,
    e: &E,
    pid: i32,
    ver: Seq<char>,
)
    requires
        is_session(text::fields(line, '\t'), o.agent.name, pid, ver, e),
        ver != newver,
        o.only_panes.len() == 0 || o.only_panes.contains(text::fields(line, '\t')[0]),
    ensures
        ({
            let f = text::fields(line, '\t');
            let said = with_row(d, line, newver, o, e).skipped.last();
            let head = f[0] + " "@ + f[1] + "  "@ + ver + ", "@;
            let doing = state::merged(e.screen(f[0]), e.hooked(f[0], pid), o.agent.spoken);
            let own = f[0] == o.self_pane;
            let dir = match e.directory(pid) {
                Some(own_dir) => own_dir,
                None => f[2],
            };
            &&& own ==> said == head
                + "this pane: restart it by hand (killing it would kill taimux)"@
            &&& !own && !o.include_busy && doing == State::Run ==> said == head
                + "run: rerun when idle, or --include-busy"@
            &&& !own && !o.include_busy && doing == State::Input ==> said == head
                + "input: rerun when idle, or --include-busy"@
            &&& !own && (o.include_busy || doing == State::Idle) && o.force_transcript is None && (
            match e.conversation(f[0], dir, f[6], pid) {
                Ok(_) => false,
                Err(why) => true,
            }) ==> said == head + "unresolved: "@ + e.conversation(f[0], dir, f[6], pid)->Err_0
                && with_row(d, line, newver, o, e).unresolved
        }),
{
    let f = text::fields(line, '\t');
    let head = f[0] + " "@ + f[1] + "  "@ + ver + ", "@;
    reveal_strlit("run");
    reveal_strlit("input");
    reveal_strlit(": rerun when idle, or --include-busy");
    reveal_strlit("run: rerun when idle, or --include-busy");
    reveal_strlit("input: rerun when idle, or --include-busy");
    assert("run"@ + ": rerun when idle, or --include-busy"@
        =~= "run: rerun when idle, or --include-busy"@);
    assert("input"@ + ": rerun when idle, or --include-busy"@
        =~= "input: rerun when idle, or --include-busy"@);
    match e.conversation(
        f[0],
        session_dir(f, e),
        f[6],
        pid,
    ) {
        Ok(_) => {},
        Err(why) => {
            assert(head + ("unresolved: "@ + why) =~= head + "unresolved: "@ + why);
        },
    }
}

/// A row of the agent without a process is never restarted, and is said to have none; a
/// row of anything else changes nothing.
pub proof fn lemma_only_a_process_is_restarted<E: Env>(
    d: Draft,
    line: Seq<char>,
    newver: Seq<char>,
    o: OptsView,
    e: &E,
)
    ensures
        ({
            let f = text::fields(line, '\t');
            let next = with_row(d, line, newver, o, e);
            &&& f.len() < 7 || f[3] != o.agent.name ==> next == d
            &&& f.len() >= 7 && f[3] == o.agent.name && (text::integer(f[4]) is None
                || text::integer(f[4]) == Some(0int)) ==> next.go == d.go && next.skipped
                == d.skipped.push(
                f[0] + " "@ + f[1] + "  looks like "@ + o.agent.name
                    + " but no session process was found under the pane"@,
            )
        }),
{
}

proof fn lemma_report_parts(
    agent: Seq<char>,
    newver: Seq<char>,
    launcher: Seq<char>,
    go: Seq<PlannedView>,
    skipped: Seq<Seq<char>>,
    unresolved: bool,
) -> (r: (Seq<char>, Seq<char>))
    ensures
        rendered(agent, newver, launcher, go, skipped, unresolved) == r.0 + all_go_lines(go) + (
        if skipped.len() == 0 {
            Seq::empty()
        } else {
            "\nskipped ("@ + text::decimal(skipped.len()) + "):\n"@ + skip_lines(skipped)
        }) + r.1,
        r.0 == agent + ": "@ + newver + " installed at "@ + launcher + "\n\n"@ + (if go.len() == 0 {
            "nothing to restart.\n"@
        } else {
            "to restart ("@ + text::decimal(go.len()) + "):\n"@
        }),
        !unresolved ==> r.1.len() == 0,
        unresolved ==> r.1 == BY_HAND@ + agent + BY_PICKER@,
{
    let head = agent + ": "@ + newver + " installed at "@ + launcher + "\n\n"@;
    let first = head + (if go.len() == 0 {
        "nothing to restart.\n"@
    } else {
        "to restart ("@ + text::decimal(go.len()) + "):\n"@
    });
    let left = if skipped.len() == 0 {
        Seq::empty()
    } else {
        "\nskipped ("@ + text::decimal(skipped.len()) + "):\n"@ + skip_lines(skipped)
    };
    let end = if unresolved {
        BY_HAND@ + agent + BY_PICKER@
    } else {
        Seq::empty()
    };
    assert(rendered(agent, newver, launcher, go, skipped, unresolved) =~= first + all_go_lines(go)
        + left + end);
    (first, end)
}

/// The report opens with the version that is installed and where, and with how many
/// sessions are to be restarted.
pub proof fn lemma_the_report_opens_with_the_version(
    agent: Seq<char>,
    newver: Seq<char>,
    launcher: Seq<char>,
    go: Seq<PlannedView>,
    skipped: Seq<Seq<char>>,
    unresolved: bool,
)
    ensures
        (agent + ": "@ + newver + " installed at "@ + launcher + "\n\n"@ + (if go.len() == 0 {
            "nothing to restart.\n"@
        } else {
            "to restart ("@ + text::decimal(go.len()) + "):\n"@
        })).is_prefix_of(rendered(agent, newver, launcher, go, skipped, unresolved)),
{
    let out = rendered(agent, newver, launcher, go, skipped, unresolved);
    let (first, end) = lemma_report_parts(agent, newver, launcher, go, skipped, unresolved);
    assert(out.subrange(0, first.len() as int) =~= first);
}

/// Every session to be restarted is listed with its pane, its target, its title, how its
/// conversation is known and the command.
pub proof fn lemma_every_planned_session_is_listed(
    agent: Seq<char>,
    newver: Seq<char>,
    launcher: Seq<char>,
    go: Seq<PlannedView>,
    skipped: Seq<Seq<char>>,
    unresolved: bool,
    i: int,
)
    requires
        0 <= i < go.len(),
    ensures
        ({
            let out = rendered(agent, newver, launcher, go, skipped, unresolved);
            &&& text::has(
                out,
                " "@ + go[i].title + "\n        "@ + go[i].via + "\n        "@ + go[i].cmd + "\n"@,
            )
            &&& text::has(out, "  "@ + go[i].pane)
            &&& text::has(out, " "@ + go[i].target)
        }),
{
    let out = rendered(agent, newver, launcher, go, skipped, unresolved);
    let (first, end) = lemma_report_parts(agent, newver, launcher, go, skipped, unresolved);
    let (a, b) = lemma_go_lines_hold(go, i);
    let left = if skipped.len() == 0 {
        Seq::empty()
    } else {
        "\nskipped ("@ + text::decimal(skipped.len()) + "):\n"@ + skip_lines(skipped)
    };
    let rest = b + left + end;
    let here = go_lines(go[i]);
    assert(first + (a + here + b) + left + end =~= (first + a) + here + rest);
    lemma_a_planned_one_is_listed(first + a, go[i], rest);
}

/// Every session left alone is listed with the reason, under how many there are.
pub proof fn lemma_every_skipped_session_is_listed(
    agent: Seq<char>,
    newver: Seq<char>,
    launcher: Seq<char>,
    go: Seq<PlannedView>,
    skipped: Seq<Seq<char>>,
    unresolved: bool,
    i: int,
)
    requires
        0 <= i < skipped.len(),
    ensures
        ({
            let out = rendered(agent, newver, launcher, go, skipped, unresolved);
            &&& text::has(out, "\nskipped ("@ + text::decimal(skipped.len()) + "):\n"@)
            &&& text::has(out, "  "@ + skipped[i] + "\n"@)
        }),
{
    let (first, end) = lemma_report_parts(agent, newver, launcher, go, skipped, unresolved);
    let (a, b) = lemma_skip_lines_hold(skipped, i);
    let between = "\nskipped ("@ + text::decimal(skipped.len()) + "):\n"@;
    let l = "  "@ + skipped[i] + "\n"@;
    let front = first + all_go_lines(go);
    let left = a + l + b;
    assert(front + (between + left) + end =~= front + between + (left + end));
    text::lemma_has_middle(front, between, left + end);
    assert(front + (between + (a + l + b)) + end =~= (front + between + a) + l + (b + end));
    text::lemma_has_middle(front + between + a, l, b + end);
}

proof fn lemma_a_planned_one_is_listed(front: Seq<char>, g: PlannedView, rest: Seq<char>)
    ensures
        text::has(
            front + go_lines(g) + rest,
            " "@ + g.title + "\n        "@ + g.via + "\n        "@ + g.cmd + "\n"@,
        ),
        text::has(front + go_lines(g) + rest, "  "@ + g.pane),
        text::has(front + go_lines(g) + rest, " "@ + g.target),
{
    let out = front + go_lines(g) + rest;
    let tail = " "@ + g.title + "\n        "@ + g.via + "\n        "@ + g.cmd + "\n"@;
    let pane = "  "@ + g.pane;
    let target = " "@ + g.target;
    let blank = blanks(5 - g.pane.len());
    let space = blanks(14 - g.target.len());
    assert(go_lines(g) =~= pane + blank + target + space + tail);
    assert(out =~= (front + pane + blank + target + space) + tail + rest);
    assert(out =~= front + pane + (blank + target + space + tail + rest));
    assert(out =~= (front + pane + blank) + target + (space + tail + rest));
    text::lemma_has_middle(front + pane + blank + target + space, tail, rest);
    text::lemma_has_middle(front, pane, blank + target + space + tail + rest);
    text::lemma_has_middle(front + pane + blank, target, space + tail + rest);
}

proof fn lemma_go_lines_hold(go: Seq<PlannedView>, i: int) -> (r: (Seq<char>, Seq<char>))
    requires
        0 <= i < go.len(),
    ensures
        all_go_lines(go) == r.0 + go_lines(go[i]) + r.1,
    decreases go.len(),
{
    if i == go.len() - 1 {
        let a = all_go_lines(go.drop_last());
        assert(all_go_lines(go) =~= a + go_lines(go[i]) + Seq::<char>::empty());
        (a, Seq::empty())
    } else {
        let (a, b) = lemma_go_lines_hold(go.drop_last(), i);
        assert(all_go_lines(go) =~= a + go_lines(go[i]) + (b + go_lines(go.last())));
        (a, b + go_lines(go.last()))
    }
}

proof fn lemma_skip_lines_hold(skipped: Seq<Seq<char>>, i: int) -> (r: (Seq<char>, Seq<char>))
    requires
        0 <= i < skipped.len(),
    ensures
        skip_lines(skipped) == r.0 + ("  "@ + skipped[i] + "\n"@) + r.1,
    decreases skipped.len(),
{
    let l = "  "@ + skipped.last() + "\n"@;
    if i == skipped.len() - 1 {
        let a = skip_lines(skipped.drop_last());
        assert(skip_lines(skipped) =~= a + l + Seq::<char>::empty());
        (a, Seq::empty())
    } else {
        let (a, b) = lemma_skip_lines_hold(skipped.drop_last(), i);
        assert(skip_lines(skipped) =~= a + ("  "@ + skipped[i] + "\n"@) + (b + l));
        (a, b + l)
    }
}

/// A process is a stray exactly where it is a session of the agent, by its name or by
/// where it was started from, and is matched by no pane.
pub proof fn lemma_a_stray_is_a_session_without_a_pane(
    agent: Seq<char>,
    procs: Seq<ProcessView>,
    matched: Seq<i32>,
    dir: Seq<char>,
    pid: i32,
)
    ensures
        strays(agent, procs, matched, dir).contains(pid) <==> !matched.contains(pid) && exists|i: int|
            0 <= i < procs.len() && (#[trigger] procs[i]).pid == pid && (text::trimmed(procs[i].comm)
                == agent || (procs[i].argv.len() > 0 && (dir + "/"@).is_prefix_of(
                procs[i].argv[0],
            ))),
    decreases procs.len(),
{
    if procs.len() > 0 {
        let front = procs.drop_last();
        let p = procs.last();
        lemma_a_stray_is_a_session_without_a_pane(agent, front, matched, dir, pid);
        let rest = strays(agent, front, matched, dir);
        let all = strays(agent, procs, matched, dir);
        if rest.contains(pid) {
            let k = choose|k: int| 0 <= k < rest.len() && rest[k] == pid;
            assert(all[k] == pid);
            let i = choose|i: int|
                0 <= i < front.len() && (#[trigger] front[i]).pid == pid && (text::trimmed(
                    front[i].comm,
                ) == agent || (front[i].argv.len() > 0 && (dir + "/"@).is_prefix_of(
                    front[i].argv[0],
                )));
            assert(procs[i] == front[i]);
        } else {
            if !matched.contains(p.pid) && is_claude(agent, p, dir) && p.pid == pid {
                assert(all.last() == pid);
                assert(procs[procs.len() - 1].pid == pid);
            }
            if all.contains(pid) {
                let k = choose|k: int| 0 <= k < all.len() && all[k] == pid;
                if k < rest.len() {
                    assert(rest[k] == pid);
                }
                assert(procs[procs.len() - 1].pid == pid);
            }
            if exists|i: int|
                0 <= i < procs.len() && (#[trigger] procs[i]).pid == pid && (text::trimmed(
                    procs[i].comm,
                ) == agent || (procs[i].argv.len() > 0 && (dir + "/"@).is_prefix_of(
                    procs[i].argv[0],
                ))) {
                let i = choose|i: int|
                    0 <= i < procs.len() && (#[trigger] procs[i]).pid == pid && (text::trimmed(
                        procs[i].comm,
                    ) == agent || (procs[i].argv.len() > 0 && (dir + "/"@).is_prefix_of(
                        procs[i].argv[0],
                    )));
                if i < front.len() {
                    assert(front[i] == procs[i]);
                }
            }
        }
    }
}

/// The version a session runs is the directory below the versions' own that its program
/// is in, whatever follows it.
pub proof fn lemma_the_version_is_the_directory_below(
    dir: Seq<char>,
    ver: Seq<char>,
    rest: Seq<char>,
)
    requires
        ver.len() > 0,
        text::free_of(ver, '/'),
    ensures
        version_below(dir + "/"@ + ver, dir) == Some(ver),
        version_below(dir + "/"@ + ver + "/"@ + rest, dir) == Some(ver),
{
    reveal_strlit("/");
    assert("/"@ =~= seq!['/']);
    let one = dir + "/"@ + ver;
    let two = dir + "/"@ + ver + "/"@ + rest;
    let cut = dir + "/"@;
    assert(one.subrange(0, cut.len() as int) =~= cut);
    assert(two.subrange(0, cut.len() as int) =~= cut);
    assert(one.skip(cut.len() as int) =~= ver);
    assert(two.skip(cut.len() as int) =~= ver + seq!['/'] + rest);
    text::lemma_one_field(ver, '/');
    text::lemma_first_field(ver, '/', rest);
}

/// A session is quit by keys sent to its own pane, and a command is typed there whole,
/// with a return behind it.
pub proof fn lemma_keys_go_to_the_pane(pane: Seq<char>, keys: Seq<char>, enter: bool)
    ensures
        typed(pane, keys, enter).len() == (if enter {
            5int
        } else {
            4int
        }),
        typed(pane, keys, enter)[0] == "send-keys"@,
        typed(pane, keys, enter)[1] == "-t"@,
        typed(pane, keys, enter)[2] == pane,
        typed(pane, keys, enter)[3] == keys,
        enter ==> typed(pane, keys, enter)[4] == "Enter"@,
{
}

/// A session outside any pane that is behind is told of, by its process and its version,
/// and one that is not behind is not.
pub proof fn lemma_a_stray_that_is_behind_is_told_of<E: Env>(
    pids: Seq<i32>,
    newver: Seq<char>,
    e: &E,
    agents: Seq<char>,
    i: int,
    ver: Seq<char>,
)
    requires
        0 <= i < pids.len(),
        e.version(pids[i]) == Some(ver),
        ver != newver,
    ensures
        exists|k: int|
            0 <= k < stray_notes(pids, newver, e, agents).len() && ("pid "@ + text::decimal_int(
                pids[i] as int,
            ) + "  "@ + ver + ", not a tmux pane: "@).is_prefix_of(
                #[trigger] stray_notes(pids, newver, e, agents)[k],
            ),
    decreases pids.len(),
{
    let all = stray_notes(pids, newver, e, agents);
    let front = pids.drop_last();
    let rest = stray_notes(front, newver, e, agents);
    let head = "pid "@ + text::decimal_int(pids[i] as int) + "  "@ + ver + ", not a tmux pane: "@;
    if i == pids.len() - 1 {
        let k = rest.len() as int;
        assert(all[k].subrange(0, head.len() as int) =~= head);
        assert(head.is_prefix_of(all[k]));
    } else {
        assert(front[i] == pids[i]);
        lemma_a_stray_that_is_behind_is_told_of(front, newver, e, agents, i, ver);
        let k = choose|k: int| 0 <= k < rest.len() && head.is_prefix_of(#[trigger] rest[k]);
        assert(all[k] == rest[k]);
    }
}

/// Where every session outside the panes is up to date nothing is told of any.
pub proof fn lemma_no_stray_is_told_of_without_need<E: Env>(
    pids: Seq<i32>,
    newver: Seq<char>,
    e: &E,
    agents: Seq<char>,
)
    requires
        forall|i: int|
            0 <= i < pids.len() ==> (match #[trigger] e.version(pids[i]) {
                Some(ver) => ver == newver,
                None => true,
            }),
    ensures
        stray_notes(pids, newver, e, agents).len() == 0,
    decreases pids.len(),
{
    if pids.len() > 0 {
        let front = pids.drop_last();
        assert forall|i: int| 0 <= i < front.len() implies (match #[trigger] e.version(front[i]) {
            Some(ver) => ver == newver,
            None => true,
        }) by {
            assert(front[i] == pids[i]);
            let v = e.version(pids[i]);
        }
        lemma_no_stray_is_told_of_without_need(front, newver, e, agents);
        let v = e.version(pids[pids.len() - 1]);
    }
}

/// A program that was replaced while it ran is known by the path it had.
pub proof fn lemma_a_replaced_program_keeps_its_path(exe: Seq<char>)
    requires
        exe.len() > 0,
        exe.last() != ')',
    ensures
        undeleted(exe) == exe,
        undeleted(exe + " (deleted)"@) == exe,
{
    let tail = " (deleted)"@;
    reveal_strlit(" (deleted)");
    assert(tail.last() == ')');
    if tail.is_suffix_of(exe) {
        let part = exe.subrange(exe.len() - tail.len(), exe.len() as int);
        assert(part.last() == exe.last());
    }
    let s = exe + tail;
    assert(s.subrange(s.len() - tail.len(), s.len() as int) =~= tail);
    assert(s.take(s.len() - tail.len()) =~= exe);
}

/// A session outside any pane is described by what it was started with: by its own id, cut
/// to eight characters, and as a fork where it is one.
pub proof fn lemma_a_stray_is_described_by_its_id(
    argv: Seq<Seq<char>>,
    agents: Seq<char>,
    id: Seq<char>,
)
    requires
        argv.len() == 3,
        argv[1] == "--session-id"@,
        argv[2] == id,
        id.len() > 0,
        text::free_of(id, '/'),
        !".jsonl"@.is_suffix_of(id),
        id != "--session-id"@,
        id != "--resume"@,
        id != "-r"@,
        id != "--fork-session"@,
        object_with(agents, "sessionId"@, id) is None,
    ensures
        nonpane_note(argv, agents) == "? ? ["@ + text::first_chars(id, 8) + "]"@,
        nonpane_note(Seq::empty(), agents) == "gone"@,
{
    reveal_strlit("--session-id");
    reveal_strlit("--resume");
    reveal_strlit("-r");
    reveal_strlit("--fork-session");
    assert("--session-id"@.len() == 12 && "--resume"@.len() == 8 && "-r"@.len() == 2
        && "--fork-session"@.len() == 14);
    reveal_with_fuel(last_value, 4);
    assert(last_value(argv, "--session-id"@, "--session-id"@, 3) == id);
    assert(last_value(argv, "-r"@, "--resume"@, 3) =~= Seq::<char>::empty());
    text::lemma_rfind_char(id, '/', id.len() as int);
    assert(text::after_last(id, '/') == id);
    assert(id_of(id) == id);
    assert(!forked(argv));
    reveal_strlit("?");
    reveal_strlit(" ");
    reveal_strlit(" [");
    reveal_strlit("? ? [");
    assert("?"@ + " "@ + "?"@ + " ["@ =~= "? ? ["@);
    assert("?"@ + " "@ + "?"@ + " ["@ + text::first_chars(id, 8) + "]"@ =~= "? ? ["@
        + text::first_chars(id, 8) + "]"@);
}

/// A session to be restarted is told of with the version it runs and the one it will run,
/// how its conversation is known, and what it was doing.
pub proof fn lemma_a_plan_says_how_it_knows<E: Env>(
    f: Seq<Seq<char>>,
    ver: Seq<char>,
    newver: Seq<char>,
    o: OptsView,
    e: &E,
    claimed: Map<Seq<char>, Seq<char>>,
    t: Seq<char>,
    why: Seq<char>,
)
    requires
        verdict(f, ver, newver, o, e, claimed) is Go,
        text::free_of(t, '\t'),
        o.force_transcript is None ==> e.conversation(
            f[0],
            session_dir(f, e),
            f[6],
            conv::row_pid(f),
        ) == Ok::<Seq<char>, Seq<char>>(t + seq!['\t'] + why),
    ensures
        ({
            let st = state::merged(
                e.screen(f[0]),
                e.hooked(f[0], conv::row_pid(f)),
                o.agent.spoken,
            );
            let known = if o.force_transcript is None {
                why
            } else {
                "--transcript, given"@
            };
            let via = verdict(f, ver, newver, o, e, claimed)->Go_0.via;
            &&& (ver + " -> "@ + newver + ", "@ + known + ", "@).is_prefix_of(via)
            &&& st == State::Idle ==> via == ver + " -> "@ + newver + ", "@ + known + ", "@
                + "idle"@
            &&& st == State::Run ==> via == ver + " -> "@ + newver + ", "@ + known + ", "@
                + "run"@
            &&& verdict(f, ver, newver, o, e, claimed)->Go_1 == (match o.force_transcript {
                Some(given) => given,
                None => t,
            })
        }),
{
    text::lemma_a_cut_is_at_the_first(t, '\t', why);
    let known = if o.force_transcript is None {
        why
    } else {
        "--transcript, given"@
    };
    let head = ver + " -> "@ + newver + ", "@ + known + ", "@;
    let via = verdict(f, ver, newver, o, e, claimed)->Go_0.via;
    assert(via.subrange(0, head.len() as int) =~= head);
}

/// A fork outside any pane is described by the id of the conversation it was forked from.
pub proof fn lemma_a_stray_fork_names_its_parent(
    argv: Seq<Seq<char>>,
    agents: Seq<char>,
    id: Seq<char>,
)
    requires
        argv.len() == 4,
        argv[1] == "--resume"@,
        argv[2] == id,
        argv[3] == "--fork-session"@,
        id.len() > 0,
        text::free_of(id, '/'),
        !".jsonl"@.is_suffix_of(id),
        id != "--session-id"@,
        id != "--resume"@,
        id != "-r"@,
        object_with(agents, "sessionId"@, id) is None,
    ensures
        nonpane_note(argv, agents) == "? ? fork ["@ + text::first_chars(id, 8) + "] of ["@
            + text::first_chars(id, 8) + "]"@,
{
    reveal_strlit("--session-id");
    reveal_strlit("--resume");
    reveal_strlit("-r");
    reveal_strlit("--fork-session");
    assert("--session-id"@.len() == 12 && "--resume"@.len() == 8 && "-r"@.len() == 2
        && "--fork-session"@.len() == 14);
    reveal_with_fuel(last_value, 5);
    assert(last_value(argv, "--session-id"@, "--session-id"@, 4) =~= Seq::<char>::empty());
    assert(last_value(argv, "-r"@, "--resume"@, 4) == id);
    text::lemma_rfind_char(id, '/', id.len() as int);
    assert(text::after_last(id, '/') == id);
    assert(id_of(id) == id);
    assert(argv[3] == "--fork-session"@);
    assert(forked(argv));
    reveal_strlit("?");
    reveal_strlit(" ");
    reveal_strlit(" fork");
    reveal_strlit(" [");
    reveal_strlit("]");
    reveal_strlit(" of [");
    reveal_strlit("? ? fork [");
    reveal_strlit("] of [");
    let short = text::first_chars(id, 8);
    assert("?"@ + " "@ + "?"@ + " fork"@ + " ["@ =~= "? ? fork ["@);
    assert("]"@ + " of ["@ =~= "] of ["@);
    assert("?"@ + " "@ + "?"@ + " fork"@ + " ["@ + short + "]"@ + " of ["@ + short + "]"@
        =~= "? ? fork ["@ + short + "] of ["@ + short + "]"@);
}

} // verus!
