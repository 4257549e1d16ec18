//! Git history as a searchable part of the index: what is asked of git and of the history
//! database, and what is made of the answers.

use crate::text::{
    copy_texts, decimal, decimal_text, lemma_marks_add, lemma_no_mark, lemma_one_mark_last, lines,
    parse_i64, parse_unsigned, question_marks, same_text, split, split_at_each, split_whitespace,
    strip_wildcards, text_lines, trim, trimmed, unsigned_upto, views, without_wildcards, words,
};
use vstd::prelude::*;

verus! {

/// How many commits are captured on a cold start.
pub const DEFAULT_HISTORY_COMMITS: usize = 500;

/// The most bytes kept of the body of a commit message.
pub const MAX_BODY_BYTES: usize = 4_000;

/// The most commits expanded by one request for details.
pub const MAX_DETAIL_COMMITS: usize = 10;

/// The most files blamed by one build.
pub const MAX_BLAME_FILES: usize = 500;

/// The positive number in a setting, if there is one that fits a machine word; else `default`.
pub open spec fn positive_setting(setting: Option<Seq<char>>, default: nat) -> nat {
    match setting {
        Some(s) => match unsigned_upto(trimmed(s), usize::MAX as nat) {
            Some(n) => if n > 0 {
                n
            } else {
                default
            },
            None => default,
        },
        None => default,
    }
}

/// How many commits are captured on a cold start, given the setting `SEMANTEX_HISTORY_COMMITS`.
pub fn history_commit_limit(setting: Option<&str>) -> (r: usize)
    ensures
        r == positive_setting(
            match setting {
                Some(s) => Some(s@),
                None => None,
            },
            DEFAULT_HISTORY_COMMITS as nat,
        ),
{
    match setting {
        Some(s) => match parse_unsigned(&trim(s), usize::MAX as u64) {
            Some(n) => if n > 0 {
                n as usize
            } else {
                DEFAULT_HISTORY_COMMITS
            },
            None => DEFAULT_HISTORY_COMMITS,
        },
        None => DEFAULT_HISTORY_COMMITS,
    }
}

/// Whether chunks are blamed, given the setting `SEMANTEX_HISTORY_BLAME`: only if it is `1`.
pub fn blame_enabled(setting: Option<&str>) -> (r: bool)
    ensures
        r == (setting is Some && setting->0@ == "1"@),
{
    match setting {
        Some(s) => same_text(s, "1"),
        None => false,
    }
}

/// One commit, as read back from the history database.
#[derive(Debug, Clone)]
pub struct CommitInfo {
    pub hash: String,
    pub author: String,
    /// Committer time in seconds since the epoch.
    pub ts: i64,
    /// The first line of the message.
    pub subject: String,
}

/// What a [`CommitInfo`] holds.
pub struct CommitInfoView {
    pub hash: Seq<char>,
    pub author: Seq<char>,
    pub ts: int,
    pub subject: Seq<char>,
}

impl View for CommitInfo {
    type V = CommitInfoView;

    open spec fn view(&self) -> CommitInfoView {
        CommitInfoView {
            hash: self.hash@,
            author: self.author@,
            ts: self.ts as int,
            subject: self.subject@,
        }
    }
}

/// An age of `seconds` in its largest unit, rounded down: seconds, minutes, hours, days, months of
/// 30 days, years of 365 days.
pub open spec fn age_text(seconds: nat) -> Seq<char> {
    if seconds < 60 {
        decimal(seconds) + "s ago"@
    } else if seconds < 3_600 {
        decimal(seconds / 60) + "m ago"@
    } else if seconds < 86_400 {
        decimal(seconds / 3_600) + "h ago"@
    } else if seconds < 2_592_000 {
        decimal(seconds / 86_400) + "d ago"@
    } else if seconds < 31_536_000 {
        decimal(seconds / 2_592_000) + "mo ago"@
    } else {
        decimal(seconds / 31_536_000) + "y ago"@
    }
}

/// The seconds from `ts` to `now`; 0 if `ts` lies ahead.
pub open spec fn seconds_since(ts: int, now: int) -> nat {
    if now <= ts {
        0
    } else {
        (now - ts) as nat
    }
}

/// How long ago `ts` was at the time `now`, both in seconds since the epoch.
pub fn humanize_age(ts: i64, now: i64) -> (r: String)
    ensures
        r@ == age_text(seconds_since(ts as int, now as int)),
{
    let delta: u64 = if now <= ts {
        0
    } else {
        (now as i128 - ts as i128) as u64
    };
    if delta < 60 {
        decimal_text(delta).concat("s ago")
    } else if delta < 3_600 {
        decimal_text(delta / 60).concat("m ago")
    } else if delta < 86_400 {
        decimal_text(delta / 3_600).concat("h ago")
    } else if delta < 2_592_000 {
        decimal_text(delta / 86_400).concat("d ago")
    } else if delta < 31_536_000 {
        decimal_text(delta / 2_592_000).concat("mo ago")
    } else {
        decimal_text(delta / 31_536_000).concat("y ago")
    }
}

/// The first line of a message; empty if the message is.
pub open spec fn first_line(message: Seq<char>) -> Seq<char> {
    if text_lines(message).len() == 0 {
        Seq::empty()
    } else {
        text_lines(message)[0]
    }
}

/// The commit in a row of the history database.
pub fn commit_from_row(hash: String, author: String, ts: i64, message: &str) -> (r: CommitInfo)
    ensures
        r@ == info_of(hash@, author@, ts as int, message@),
{
    let all: Vec<String> = lines(message);
    let subject: String = if all.len() == 0 {
        String::new()
    } else {
        all[0].clone()
    };
    proof {
        if all@.len() > 0 {
            assert(text_lines(message@)[0] == all@[0]@);
        }
    }
    CommitInfo { hash, author, ts, subject }
}

/// The days from the epoch to a day of the proleptic Gregorian calendar, which may run past the
/// end of its month.
pub open spec fn days_from_civil(y: int, m: int, d: int) -> int {
    let yy = if m <= 2 {
        y - 1
    } else {
        y
    };
    let mp = (m + 9) % 12;
    365 * yy + yy / 4 - yy / 100 + yy / 400 + (153 * mp + 2) / 5 + d - 1 - 719_468
}

/// The time of a date written `YYYY-MM-DD`, at midnight UTC, in seconds since the epoch. The month
/// must be from 1 to 12 and the day from 1 to 31.
pub open spec fn utc_date(s: Seq<char>) -> Option<int> {
    let y = crate::text::digits_upto(s.subrange(0, 4), 9_999);
    let m = crate::text::digits_upto(s.subrange(5, 7), 99);
    let d = crate::text::digits_upto(s.subrange(8, 10), 99);
    if s.len() == 10 && s[4] == '-' && s[7] == '-' && y is Some && m is Some && d is Some && 1
        <= m->0 <= 12 && 1 <= d->0 <= 31 {
        Some(days_from_civil(y->0 as int, m->0 as int, d->0 as int) * 86_400)
    } else {
        None
    }
}

/// A leap year of the Gregorian calendar.
pub open spec fn is_leap(y: int) -> bool {
    y % 4 == 0 && (y % 100 != 0 || y % 400 == 0)
}

/// The number of days of a month.
pub open spec fn month_length(y: int, m: int) -> int {
    if m == 2 {
        if is_leap(y) {
            29
        } else {
            28
        }
    } else if m == 4 || m == 6 || m == 9 || m == 11 {
        30
    } else {
        31
    }
}

proof fn lemma_leap_step(y: int)
    ensures
        (y / 4 - y / 100 + y / 400) - ((y - 1) / 4 - (y - 1) / 100 + (y - 1) / 400) == if is_leap(y) {
            1int
        } else {
            0
        },
{
    assert((y % 100 == 0) ==> (y % 4 == 0)) by (nonlinear_arith);
    assert((y % 400 == 0) ==> (y % 100 == 0)) by (nonlinear_arith);
}

/// The days are those of the Gregorian calendar, counted from 1970-01-01: a day later counts one
/// more, and from the first of one month to the first of the next there are as many as the month
/// has days.
pub proof fn lemma_days_from_civil(y: int, m: int, d: int)
    requires
        1 <= m <= 12,
    ensures
        days_from_civil(1970, 1, 1) == 0,
        days_from_civil(y, m, d + 1) == days_from_civil(y, m, d) + 1,
        m < 12 ==> days_from_civil(y, m + 1, 1) - days_from_civil(y, m, 1) == month_length(y, m),
        m == 12 ==> days_from_civil(y + 1, 1, 1) - days_from_civil(y, 12, 1) == month_length(
            y,
            12,
        ),
{
    lemma_leap_step(y);
}

/// The leap days of 400 years are the same in every era of 400 years.
proof fn lemma_era(yy: int)
    ensures
        365 * yy + yy / 4 - yy / 100 + yy / 400 == (yy / 400) * 146_097 + (yy % 400) * 365 + (yy
            % 400) / 4 - (yy % 400) / 100,
{
    let e = yy / 400;
    let r = yy % 400;
    assert(yy == 400 * e + r);
    assert(yy / 4 == 100 * e + r / 4);
    assert(yy / 100 == 4 * e + r / 100);
}

/// The days from the epoch to a day of the calendar.
fn days_since_epoch(y: i64, m: i64, d: i64) -> (days: i64)
    requires
        0 <= y <= 9_999,
        1 <= m <= 12,
        1 <= d <= 31,
    ensures
        days == days_from_civil(y as int, m as int, d as int),
        -1_000_000 <= days <= 10_000_000,
{
    let y_adj: i64 = if m <= 2 {
        y - 1
    } else {
        y
    };
    let era: i64 = if y_adj >= 0 {
        y_adj / 400
    } else {
        -1
    };
    proof {
        lemma_era(y_adj as int);
    }
    let yoe: i64 = y_adj - era * 400;
    let mp: i64 = (m + 9) % 12;
    let doy: i64 = (153 * mp + 2) / 5 + d - 1;
    let doe: i64 = yoe * 365 + yoe / 4 - yoe / 100 + doy;
    let days: i64 = era * 146_097 + doe - 719_468;
    days
}

/// The time of a date written `YYYY-MM-DD`, at midnight UTC, in seconds since the epoch; `None` if
/// it is not so written or its month or day is out of range. The length of the month is not
/// checked.
pub fn parse_utc_date_to_ts(s: &str) -> (r: Option<i64>)
    ensures
        (match r {
            Some(t) => Some(t as int),
            None => None,
        }) == utc_date(s@),
{
    let v: Vec<char> = crate::text::chars_of(s);
    if v.len() != 10 || v[4] != '-' || v[7] != '-' {
        return None;
    }
    let y: i64 = match crate::text::parse_only_digits(&crate::text::text_of_range(&v, 0, 4), 9_999) {
        Some(n) => n as i64,
        None => {
            return None;
        },
    };
    let m: i64 = match crate::text::parse_only_digits(&crate::text::text_of_range(&v, 5, 7), 99) {
        Some(n) => n as i64,
        None => {
            return None;
        },
    };
    let d: i64 = match crate::text::parse_only_digits(&crate::text::text_of_range(&v, 8, 10), 99) {
        Some(n) => n as i64,
        None => {
            return None;
        },
    };
    if m < 1 || m > 12 || d < 1 || d > 31 {
        return None;
    }
    Some(days_since_epoch(y, m, d) * 86_400)
}

/// What a `since` selector stands for.
#[derive(Debug, Clone)]
pub enum SinceSelector {
    /// Nothing: it is empty, or it could be taken for a flag.
    Rejected,
    /// A time, in seconds since the epoch.
    At(i64),
    /// A revision, to be resolved to a commit.
    Revision(String),
}

/// What a `since` selector stands for: a date, or else a revision.
pub open spec fn since_view(since: Seq<char>) -> (Option<int>, Option<Seq<char>>) {
    let s = trimmed(since);
    if s.len() == 0 || s[0] == '-' {
        (None, None)
    } else if utc_date(s) is Some {
        (utc_date(s), None)
    } else {
        (None, Some(s + "^{commit}"@))
    }
}

/// What a `since` selector stands for. White space around it is ignored. A date `YYYY-MM-DD` is
/// the time of its midnight; anything else is a revision, given as git is asked for it. An empty
/// selector, or one that begins with `-`, is rejected.
pub fn resolve_since_to_ts(since: &str) -> (r: SinceSelector)
    ensures
        ({
            let (at, rev) = since_view(since@);
            match r {
                SinceSelector::Rejected => at is None && rev is None,
                SinceSelector::At(t) => at == Some(t as int) && rev is None,
                SinceSelector::Revision(t) => at is None && rev == Some(t@),
            }
        }),
{
    let s: String = trim(since);
    let v: Vec<char> = crate::text::chars_of(&s);
    if v.len() == 0 || v[0] == '-' {
        return SinceSelector::Rejected;
    }
    match parse_utc_date_to_ts(&s) {
        Some(t) => SinceSelector::At(t),
        None => SinceSelector::Revision(s.concat("^{commit}")),
    }
}

/// The time that git printed for a commit.
pub fn shown_time(stdout: &str) -> (r: Option<i64>)
    ensures
        (match r {
            Some(t) => Some(t as int),
            None => None,
        }) == crate::text::signed_64(trimmed(stdout@)),
{
    parse_i64(&trim(stdout))
}

/// Why a request to the history failed.
#[derive(Debug, Clone)]
pub enum HistoryError {
    /// The text is not the hash of a commit.
    InvalidSha(String),
    /// git does not know the commit; with what git printed.
    NotFound(String, String),
    /// git printed something else than was asked for.
    UnexpectedOutput(String),
    /// `git log` failed; with what git printed.
    LogFailed(String),
    /// `git log --name-only` failed; with what git printed.
    NameLogFailed(String),
}

impl HistoryError {
    /// The error in words.
    pub open spec fn text(self) -> Seq<char> {
        match self {
            HistoryError::InvalidSha(sha) => "invalid commit sha '"@ + sha@
                + "' (need 7-40 hex chars)"@,
            HistoryError::NotFound(sha, printed) => "commit '"@ + sha@ + "' not found: "@
                + printed@,
            HistoryError::UnexpectedOutput(sha) => "unexpected `git show` output for '"@ + sha@
                + "'"@,
            HistoryError::LogFailed(printed) => "git log failed: "@ + printed@,
            HistoryError::NameLogFailed(printed) => "git log --name-only failed: "@ + printed@,
        }
    }

    /// The error in words.
    pub fn message(&self) -> (r: String)
        ensures
            r@ == self.text(),
    {
        match self {
            HistoryError::InvalidSha(sha) => "invalid commit sha '".to_owned().concat(sha).concat(
                "' (need 7-40 hex chars)",
            ),
            HistoryError::NotFound(sha, printed) => "commit '".to_owned().concat(sha).concat(
                "' not found: ",
            ).concat(printed),
            HistoryError::UnexpectedOutput(sha) => "unexpected `git show` output for '".to_owned().concat(
            sha).concat("'"),
            HistoryError::LogFailed(printed) => "git log failed: ".to_owned().concat(printed),
            HistoryError::NameLogFailed(printed) => "git log --name-only failed: ".to_owned().concat(
            printed),
        }
    }
}

/// What a git command printed, and whether it succeeded.
#[derive(Debug, Clone)]
pub struct GitOutput {
    pub success: bool,
    pub stdout: String,
    pub stderr: String,
}

/// The text names a commit: 7 to 40 hexadecimal digits.
pub open spec fn is_sha(s: Seq<char>) -> bool {
    7 <= s.len() <= 40 && crate::text::all_hex(s)
}

/// The hash of a commit that the text names, without the white space around it.
pub fn check_sha(sha: &str) -> (r: Result<String, HistoryError>)
    ensures
        match r {
            Ok(t) => is_sha(trimmed(sha@)) && t@ == trimmed(sha@),
            Err(e) => !is_sha(trimmed(sha@)) && e is InvalidSha && e->InvalidSha_0@ == trimmed(
                sha@,
            ),
        },
{
    let t: String = trim(sha);
    let v: Vec<char> = crate::text::chars_of(&t);
    if v.len() < 7 || v.len() > 40 || !crate::text::is_all_hex(&v) {
        Err(HistoryError::InvalidSha(t))
    } else {
        Ok(t)
    }
}

/// A text kept to `max` bytes. A text that fits loses the white space at its end; of a longer one
/// the longest part at its start is kept that fits.
pub open spec fn kept(s: Seq<char>, max: nat) -> Seq<char> {
    if crate::text::byte_len(s) <= max {
        crate::text::trimmed_end(s)
    } else {
        crate::text::prefix_within(s, max)
    }
}

/// A text kept to `max` bytes, and whether something was cut off.
pub fn truncate_at_boundary(s: &str, max: usize) -> (r: (String, bool))
    ensures
        r.0@ == kept(s@, max as nat),
        r.1 == (crate::text::byte_len(s@) > max),
{
    let (t, cut) = crate::text::cut_at_bytes(s, max);
    if cut {
        (t, true)
    } else {
        (crate::text::trim_end(s), false)
    }
}

/// The body of a message kept to 4 000 bytes, with an ellipsis where something was cut off.
pub open spec fn kept_body(body: Seq<char>) -> Seq<char> {
    if crate::text::byte_len(body) <= MAX_BODY_BYTES {
        body
    } else {
        crate::text::prefix_within(body, MAX_BODY_BYTES as nat).push('\u{2026}')
    }
}

/// The body of a message kept to 4 000 bytes.
pub fn truncate_body(body: &str) -> (r: String)
    ensures
        r@ == kept_body(body@),
{
    let (mut t, cut) = crate::text::cut_at_bytes(body, MAX_BODY_BYTES);
    if cut {
        t.push('\u{2026}');
        t
    } else {
        body.to_owned()
    }
}

/// A commit as git shows it.
#[derive(Debug, Clone)]
pub struct RawCommit {
    pub hash: String,
    pub author: String,
    pub ts: i64,
    pub subject: String,
    pub body: String,
}

/// What a [`RawCommit`] holds.
pub struct RawCommitView {
    pub hash: Seq<char>,
    pub author: Seq<char>,
    pub ts: int,
    pub subject: Seq<char>,
    pub body: Seq<char>,
}

impl View for RawCommit {
    type V = RawCommitView;

    open spec fn view(&self) -> RawCommitView {
        RawCommitView {
            hash: self.hash@,
            author: self.author@,
            ts: self.ts as int,
            subject: self.subject@,
            body: self.body@,
        }
    }
}

/// The commit in five fields that git printed; `None` if the first is blank or the third is not a
/// time.
pub open spec fn commit_in_fields(f: Seq<Seq<char>>) -> Option<RawCommitView> {
    if trimmed(f[0]).len() == 0 {
        None
    } else {
        match crate::text::signed_64(f[2]) {
            Some(ts) => Some(
                RawCommitView {
                    hash: trimmed(f[0]),
                    author: f[1],
                    ts,
                    subject: f[3],
                    body: kept_body(trimmed(f[4])),
                },
            ),
            None => None,
        }
    }
}

/// The commits in the fields that git printed, five fields a commit; an incomplete rest is left
/// out.
pub open spec fn commits_in_fields(f: Seq<Seq<char>>) -> Seq<RawCommitView>
    decreases f.len(),
{
    if f.len() < 5 {
        Seq::empty()
    } else {
        let rest = commits_in_fields(f.skip(5));
        match commit_in_fields(f.take(5)) {
            Some(c) => seq![c] + rest,
            None => rest,
        }
    }
}

/// The commits in the output of `git log`: its fields end with NUL.
pub fn parse_commit_log(text: &str) -> (r: Vec<RawCommit>)
    ensures
        views(r@) == commits_in_fields(split_at_each(text@, '\0')),
{
    let fields: Vec<String> = split(text, '\0');
    let ghost all = views(fields@);
    let mut r: Vec<RawCommit> = Vec::new();
    let mut i: usize = 0;
    proof {
        assert(all.skip(0) =~= all);
        assert(views(r@) + commits_in_fields(all) =~= commits_in_fields(all));
    }
    while fields.len() - i >= 5
        invariant
            i <= fields@.len(),
            all == views(fields@),
            views(r@) + commits_in_fields(all.skip(i as int)) == commits_in_fields(all),
        decreases fields@.len() - i,
    {
        let ghost shown = views(r@);
        let ghost five = all.skip(i as int).take(5);
        proof {
            assert(all.skip(i as int).skip(5) =~= all.skip(i + 5));
            assert(five[0] == fields@[i as int]@ && five[1] == fields@[i + 1]@ && five[2]
                == fields@[i + 2]@ && five[3] == fields@[i + 3]@ && five[4] == fields@[i + 4]@);
        }
        let hash: String = trim(&fields[i]);
        if !hash.as_str().is_empty() {
            match parse_i64(&fields[i + 2]) {
                Some(ts) => {
                    let c: RawCommit = RawCommit {
                        hash,
                        author: fields[i + 1].clone(),
                        ts,
                        subject: fields[i + 3].clone(),
                        body: truncate_body(&trim(&fields[i + 4])),
                    };
                    r.push(c);
                    proof {
                        assert(views(r@) + commits_in_fields(all.skip(i + 5)) =~= shown + (seq![c@]
                            + commits_in_fields(all.skip(i + 5))));
                    }
                },
                None => {},
            }
        }
        i = i + 5;
    }
    proof {
        assert(views(r@) + Seq::<RawCommitView>::empty() =~= views(r@));
    }
    r
}

/// Everything about one commit: its metadata, its files and its changes.
#[derive(Debug, Clone)]
pub struct CommitDetail {
    pub hash: String,
    pub author: String,
    pub ts: i64,
    pub subject: String,
    pub body: String,
    /// The paths recorded for the commit.
    pub files: Vec<String>,
    /// How many lines changed in each file.
    pub stat: String,
    /// The changes, kept to a number of bytes.
    pub patch: String,
    pub patch_truncated: bool,
}

/// What a [`CommitDetail`] holds.
pub struct CommitDetailView {
    pub hash: Seq<char>,
    pub author: Seq<char>,
    pub ts: int,
    pub subject: Seq<char>,
    pub body: Seq<char>,
    pub files: Seq<Seq<char>>,
    pub stat: Seq<char>,
    pub patch: Seq<char>,
    pub patch_truncated: bool,
}

impl View for CommitDetail {
    type V = CommitDetailView;

    open spec fn view(&self) -> CommitDetailView {
        CommitDetailView {
            hash: self.hash@,
            author: self.author@,
            ts: self.ts as int,
            subject: self.subject@,
            body: self.body@,
            files: views(self.files@),
            stat: self.stat@,
            patch: self.patch@,
            patch_truncated: self.patch_truncated,
        }
    }
}

/// The metadata of the commit that git was asked to show, from its five fields; a third field that
/// is not a time counts as 0.
pub open spec fn shown_commit(f: Seq<Seq<char>>) -> RawCommitView {
    RawCommitView {
        hash: trimmed(f[0]),
        author: f[1],
        ts: match crate::text::signed_64(trimmed(f[2])) {
            Some(ts) => ts,
            None => 0,
        },
        subject: f[3],
        body: kept_body(trimmed(f[4])),
    }
}

/// The metadata of the commit `sha` in what `git show` printed for it.
pub fn parse_shown_commit(sha: &str, shown: &GitOutput) -> (r: Result<RawCommit, HistoryError>)
    ensures
        ({
            let f = split_at_each(shown.stdout@, '\0');
            match r {
                Ok(c) => shown.success && f.len() >= 5 && c@ == shown_commit(f),
                Err(HistoryError::NotFound(t, printed)) => !shown.success && t@ == sha@
                    && printed@ == trimmed(shown.stderr@),
                Err(HistoryError::UnexpectedOutput(t)) => shown.success && f.len() < 5 && t@
                    == sha@,
                Err(_) => false,
            }
        }),
{
    if !shown.success {
        return Err(HistoryError::NotFound(sha.to_owned(), trim(&shown.stderr)));
    }
    let f: Vec<String> = split(&shown.stdout, '\0');
    if f.len() < 5 {
        return Err(HistoryError::UnexpectedOutput(sha.to_owned()));
    }
    proof {
        let v = views(f@);
        assert(v[0] == f@[0]@ && v[1] == f@[1]@ && v[2] == f@[2]@ && v[3] == f@[3]@ && v[4]
            == f@[4]@);
    }
    let ts: i64 = match parse_i64(&trim(&f[2])) {
        Some(ts) => ts,
        None => 0,
    };
    Ok(
        RawCommit {
            hash: trim(&f[0]),
            author: f[1].clone(),
            ts,
            subject: f[3].clone(),
            body: truncate_body(&trim(&f[4])),
        },
    )
}

/// What a git command printed if it succeeded, else nothing.
pub open spec fn printed(out: GitOutput) -> Seq<char> {
    if out.success {
        out.stdout@
    } else {
        Seq::empty()
    }
}

/// Everything about the commit `sha`: `shown` is what `git show` printed of its metadata, `files`
/// are the paths recorded for it, `stat` and `patch` are what `git show` printed of its changes.
/// A text that names no commit is rejected, whatever git printed.
pub fn commit_detail(
    sha: &str,
    shown: &GitOutput,
    files: Vec<String>,
    stat: &GitOutput,
    patch: &GitOutput,
    patch_budget: usize,
) -> (r: Result<CommitDetail, HistoryError>)
    ensures
        ({
            let name = trimmed(sha@);
            let f = split_at_each(shown.stdout@, '\0');
            match r {
                Ok(d) => {
                    &&& is_sha(name) && shown.success && f.len() >= 5
                    &&& d@ == detail_of(
                        f,
                        views(files@),
                        printed(*stat),
                        printed(*patch),
                        patch_budget as nat,
                    )
                },
                Err(HistoryError::InvalidSha(t)) => !is_sha(name) && t@ == name,
                Err(HistoryError::NotFound(t, p)) => is_sha(name) && !shown.success && t@ == name
                    && p@ == trimmed(shown.stderr@),
                Err(HistoryError::UnexpectedOutput(t)) => is_sha(name) && shown.success
                    && f.len() < 5 && t@ == name,
                Err(_) => false,
            }
        }),
{
    let name: String = match check_sha(sha) {
        Ok(t) => t,
        Err(e) => {
            return Err(e);
        },
    };
    let c: RawCommit = match parse_shown_commit(&name, shown) {
        Ok(c) => c,
        Err(e) => {
            return Err(e);
        },
    };
    let stat_text: String = if stat.success {
        trim(&stat.stdout)
    } else {
        trim("")
    };
    proof {
        reveal_strlit("");
        assert(""@ =~= Seq::<char>::empty());
    }
    let (patch_text, cut) = if patch.success {
        truncate_at_boundary(&patch.stdout, patch_budget)
    } else {
        truncate_at_boundary("", patch_budget)
    };
    Ok(
        CommitDetail {
            hash: c.hash,
            author: c.author,
            ts: c.ts,
            subject: c.subject,
            body: c.body,
            files,
            stat: stat_text,
            patch: patch_text,
            patch_truncated: cut,
        },
    )
}

/// The arguments `-n` and `n`, if a number of commits is given.
pub open spec fn count_args(max_count: Option<usize>) -> Seq<Seq<char>> {
    match max_count {
        Some(n) => seq!["-n"@, decimal(n as nat)],
        None => Seq::empty(),
    }
}

/// Adds the arguments `-n` and `n`, if a number of commits is given.
fn push_count(args: &mut Vec<String>, max_count: Option<usize>)
    ensures
        views(final(args)@) == views(old(args)@) + count_args(max_count),
{
    match max_count {
        Some(n) => {
            args.push("-n".to_owned());
            args.push(decimal_text(n as u64));
            proof {
                assert(views(args@) =~= views(old(args)@) + count_args(max_count));
            }
        },
        None => {
            proof {
                assert(views(args@) =~= views(old(args)@) + count_args(max_count));
            }
        },
    }
}

/// The arguments with which git is asked for the metadata of the commits in `range`, the oldest
/// first: five fields a commit, each ended by NUL. The last argument keeps git from taking the
/// range for a path.
pub fn commit_log_args(range: &str, max_count: Option<usize>) -> (r: Vec<String>)
    ensures
        views(r@) == seq!["log"@, "--no-color"@, "--date=unix"@, "--reverse"@] + count_args(
            max_count,
        ) + seq!["--pretty=format:%H%x00%an%x00%ct%x00%s%x00%b%x00"@, range@, "--"@],
{
    let mut args: Vec<String> = Vec::new();
    args.push("log".to_owned());
    args.push("--no-color".to_owned());
    args.push("--date=unix".to_owned());
    args.push("--reverse".to_owned());
    proof {
        assert(views(args@) =~= seq!["log"@, "--no-color"@, "--date=unix"@, "--reverse"@]);
    }
    push_count(&mut args, max_count);
    let ghost before = views(args@);
    args.push("--pretty=format:%H%x00%an%x00%ct%x00%s%x00%b%x00".to_owned());
    args.push(range.to_owned());
    args.push("--".to_owned());
    proof {
        assert(views(args@) =~= before + seq![
            "--pretty=format:%H%x00%an%x00%ct%x00%s%x00%b%x00"@,
            range@,
            "--"@,
        ]);
    }
    args
}

/// The arguments with which git is asked for the files that the commits in `range` touched, with
/// paths as they are, relative to the project.
pub fn changed_files_args(range: &str, max_count: Option<usize>) -> (r: Vec<String>)
    ensures
        views(r@) == seq![
            "-c"@,
            "core.quotepath=off"@,
            "log"@,
            "--no-color"@,
            "--reverse"@,
            "--name-only"@,
            "--relative"@,
        ] + count_args(max_count) + seq!["--pretty=format:%x00%H"@, range@, "--"@],
{
    let mut args: Vec<String> = Vec::new();
    args.push("-c".to_owned());
    args.push("core.quotepath=off".to_owned());
    args.push("log".to_owned());
    args.push("--no-color".to_owned());
    args.push("--reverse".to_owned());
    args.push("--name-only".to_owned());
    args.push("--relative".to_owned());
    proof {
        assert(views(args@) =~= seq![
            "-c"@,
            "core.quotepath=off"@,
            "log"@,
            "--no-color"@,
            "--reverse"@,
            "--name-only"@,
            "--relative"@,
        ]);
    }
    push_count(&mut args, max_count);
    let ghost before = views(args@);
    args.push("--pretty=format:%x00%H".to_owned());
    args.push(range.to_owned());
    args.push("--".to_owned());
    proof {
        assert(views(args@) =~= before + seq!["--pretty=format:%x00%H"@, range@, "--"@]);
    }
    args
}

/// The commits of a range, from what `git log` printed.
pub fn fetch_commit_metadata(out: &GitOutput) -> (r: Result<Vec<RawCommit>, HistoryError>)
    ensures
        match r {
            Ok(c) => out.success && views(c@) == commits_in_fields(
                split_at_each(out.stdout@, '\0'),
            ),
            Err(e) => !out.success && e is LogFailed && e->LogFailed_0@ == out.stderr@,
        },
{
    if out.success {
        Ok(parse_commit_log(&out.stdout))
    } else {
        Err(HistoryError::LogFailed(out.stderr.clone()))
    }
}

/// A commit and the files that it touched.
#[derive(Debug, Clone)]
pub struct ChangedFiles {
    pub hash: String,
    pub files: Vec<String>,
}

impl View for ChangedFiles {
    type V = (Seq<char>, Seq<Seq<char>>);

    open spec fn view(&self) -> (Seq<char>, Seq<Seq<char>>) {
        (self.hash@, views(self.files@))
    }
}

/// The lines that are not blank, without the white space around them.
pub open spec fn nonblank(ls: Seq<Seq<char>>) -> Seq<Seq<char>>
    decreases ls.len(),
{
    if ls.len() == 0 {
        Seq::empty()
    } else if trimmed(ls.last()).len() == 0 {
        nonblank(ls.drop_last())
    } else {
        nonblank(ls.drop_last()).push(trimmed(ls.last()))
    }
}

/// The commit and the files in one block of the output of `git log --name-only`: the hash in the
/// first line, a file in each other line that is not blank.
pub open spec fn block_files(block: Seq<char>) -> Option<(Seq<char>, Seq<Seq<char>>)> {
    let ls = text_lines(block);
    if ls.len() == 0 || trimmed(ls[0]).len() == 0 {
        None
    } else {
        Some((trimmed(ls[0]), nonblank(ls.skip(1))))
    }
}

/// The commits and files in the blocks of the output of `git log --name-only`.
pub open spec fn changed_files_in(blocks: Seq<Seq<char>>) -> Seq<(Seq<char>, Seq<Seq<char>>)>
    decreases blocks.len(),
{
    if blocks.len() == 0 {
        Seq::empty()
    } else {
        let r = changed_files_in(blocks.drop_last());
        match block_files(blocks.last()) {
            Some(b) => r.push(b),
            None => r,
        }
    }
}

/// The files recorded for a commit, by the last entry for it; none if there is no entry.
pub open spec fn files_of(
    changed: Seq<(Seq<char>, Seq<Seq<char>>)>,
    hash: Seq<char>,
) -> Seq<Seq<char>>
    decreases changed.len(),
{
    if changed.len() == 0 {
        Seq::empty()
    } else if changed.last().0 == hash {
        changed.last().1
    } else {
        files_of(changed.drop_last(), hash)
    }
}

/// The files touched by the commits of a range, from what `git log --name-only` printed.
pub fn fetch_changed_files(out: &GitOutput) -> (r: Result<Vec<ChangedFiles>, HistoryError>)
    ensures
        match r {
            Ok(c) => out.success && views(c@) == changed_files_in(
                split_at_each(out.stdout@, '\0'),
            ),
            Err(e) => !out.success && e is NameLogFailed && e->NameLogFailed_0@ == out.stderr@,
        },
{
    if !out.success {
        return Err(HistoryError::NameLogFailed(out.stderr.clone()));
    }
    let blocks: Vec<String> = split(&out.stdout, '\0');
    let ghost all = views(blocks@);
    let mut r: Vec<ChangedFiles> = Vec::new();
    let mut i: usize = 0;
    proof {
        assert(views(r@) =~= changed_files_in(all.take(0)));
    }
    while i < blocks.len()
        invariant
            i <= blocks@.len(),
            all == views(blocks@),
            views(r@) == changed_files_in(all.take(i as int)),
        decreases blocks@.len() - i,
    {
        let ghost shown = views(r@);
        proof {
            assert(all.take(i + 1).drop_last() =~= all.take(i as int));
            assert(all.take(i + 1).last() == blocks@[i as int]@);
        }
        let ls: Vec<String> = lines(&blocks[i]);
        if ls.len() > 0 {
            proof {
                assert(text_lines(blocks@[i as int]@)[0] == ls@[0]@);
            }
            let hash: String = trim(&ls[0]);
            if !hash.as_str().is_empty() {
                let files: Vec<String> = nonblank_from(&ls, 1);
                let entry: ChangedFiles = ChangedFiles { hash, files };
                proof {
                    assert(views(ls@).subrange(1, ls@.len() as int) =~= views(ls@).skip(1));
                }
                r.push(entry);
                proof {
                    assert(views(r@) =~= shown.push(entry@));
                }
            }
        }
        i = i + 1;
    }
    proof {
        assert(all.take(i as int) =~= all);
    }
    Ok(r)
}

/// The lines from `from` on that are not blank, without the white space around them.
fn nonblank_from(ls: &Vec<String>, from: usize) -> (r: Vec<String>)
    requires
        from <= ls@.len(),
    ensures
        views(r@) == nonblank(views(ls@).subrange(from as int, ls@.len() as int)),
{
    let ghost all = views(ls@);
    let mut r: Vec<String> = Vec::new();
    let mut i: usize = from;
    proof {
        assert(views(r@) =~= nonblank(all.subrange(from as int, from as int)));
    }
    while i < ls.len()
        invariant
            from <= i <= ls@.len(),
            all == views(ls@),
            views(r@) == nonblank(all.subrange(from as int, i as int)),
        decreases ls@.len() - i,
    {
        let ghost shown = views(r@);
        proof {
            assert(all.subrange(from as int, i + 1).drop_last() =~= all.subrange(
                from as int,
                i as int,
            ));
            assert(all.subrange(from as int, i + 1).last() == ls@[i as int]@);
        }
        let t: String = trim(&ls[i]);
        if !t.as_str().is_empty() {
            r.push(t);
            proof {
                assert(views(r@) =~= shown.push(t@));
            }
        }
        i = i + 1;
    }
    r
}

/// What is stored of a commit: its row, and the files that it touched.
#[derive(Debug, Clone)]
pub struct CommitRow {
    pub hash: String,
    pub author: String,
    pub ts: i64,
    pub message: String,
    pub body: String,
    pub files: Vec<String>,
}

/// What a [`CommitRow`] holds.
pub struct CommitRowView {
    pub hash: Seq<char>,
    pub author: Seq<char>,
    pub ts: int,
    pub message: Seq<char>,
    pub body: Seq<char>,
    pub files: Seq<Seq<char>>,
}

impl View for CommitRow {
    type V = CommitRowView;

    open spec fn view(&self) -> CommitRowView {
        CommitRowView {
            hash: self.hash@,
            author: self.author@,
            ts: self.ts as int,
            message: self.message@,
            body: self.body@,
            files: views(self.files@),
        }
    }
}

/// The message of a commit: its subject, and after an empty line its body if it has one.
pub open spec fn full_message(c: RawCommitView) -> Seq<char> {
    if c.body.len() == 0 {
        c.subject
    } else {
        c.subject + "\n\n"@ + c.body
    }
}

/// What is stored of a commit.
pub open spec fn row_of(
    c: RawCommitView,
    changed: Seq<(Seq<char>, Seq<Seq<char>>)>,
) -> CommitRowView {
    CommitRowView {
        hash: c.hash,
        author: c.author,
        ts: c.ts,
        message: full_message(c),
        body: c.body,
        files: files_of(changed, c.hash),
    }
}

/// What is stored of a batch of commits, in their order.
pub open spec fn rows_of(
    commits: Seq<RawCommitView>,
    changed: Seq<(Seq<char>, Seq<Seq<char>>)>,
) -> Seq<CommitRowView> {
    Seq::new(commits.len(), |i: int| row_of(commits[i], changed))
}

/// The files recorded for a commit.
fn find_files(changed: &Vec<ChangedFiles>, hash: &str) -> (r: Vec<String>)
    ensures
        views(r@) == files_of(views(changed@), hash@),
{
    let ghost all = views(changed@);
    let mut i: usize = changed.len();
    proof {
        assert(all.take(i as int) =~= all);
    }
    while i > 0
        invariant
            i <= changed@.len(),
            all == views(changed@),
            files_of(all, hash@) == files_of(all.take(i as int), hash@),
        decreases i,
    {
        proof {
            assert(all.take(i as int).drop_last() =~= all.take(i - 1));
            assert(all.take(i as int).last() == changed@[i - 1]@);
        }
        if same_text(&changed[i - 1].hash, hash) {
            return copy_texts(&changed[i - 1].files);
        }
        i = i - 1;
    }
    let r: Vec<String> = Vec::new();
    proof {
        assert(views(r@) =~= Seq::<Seq<char>>::empty());
    }
    r
}

/// What is stored of a batch of commits, in their order.
pub fn store_commit_batch(commits: &Vec<RawCommit>, changed: &Vec<ChangedFiles>) -> (r: Vec<
    CommitRow,
>)
    ensures
        views(r@) == rows_of(views(commits@), views(changed@)),
{
    let mut r: Vec<CommitRow> = Vec::new();
    let mut i: usize = 0;
    while i < commits.len()
        invariant
            i <= commits@.len(),
            r@.len() == i,
            forall|k: int|
                0 <= k < i ==> (#[trigger] r@[k])@ == row_of(commits@[k]@, views(changed@)),
        decreases commits@.len() - i,
    {
        let c: &RawCommit = &commits[i];
        let message: String = if c.body.as_str().is_empty() {
            c.subject.clone()
        } else {
            c.subject.clone().concat("\n\n").concat(&c.body)
        };
        let row: CommitRow = CommitRow {
            hash: c.hash.clone(),
            author: c.author.clone(),
            ts: c.ts,
            message,
            body: c.body.clone(),
            files: find_files(changed, &c.hash),
        };
        r.push(row);
        i = i + 1;
    }
    proof {
        assert(views(r@) =~= rows_of(views(commits@), views(changed@)));
    }
    r
}

/// What is known when the history is brought up to date.
#[derive(Debug, Clone)]
pub struct HistoryFacts {
    /// The commit at `HEAD`; `None` outside a repository or in one without commits.
    pub head: Option<String>,
    /// The newest commit that has been processed.
    pub last_sha: Option<String>,
    /// Whether that commit still exists.
    pub last_exists: bool,
    /// How many commits lie between it and `HEAD`, if git can tell.
    pub behind: Option<usize>,
}

/// How the history is brought up to date.
#[derive(Debug, Clone)]
pub enum Population {
    /// There is nothing to do.
    Nothing,
    /// No commit is missing: only the commit at `HEAD` is recorded as processed.
    MarkHead(String),
    /// The commits of `range` are fetched, at most `max_count` of them, the newest ones.
    Fetch { range: String, max_count: Option<usize> },
}

/// What a [`Population`] says.
pub enum PopulationView {
    Nothing,
    MarkHead(Seq<char>),
    Fetch(Seq<char>, Option<nat>),
}

impl View for Population {
    type V = PopulationView;

    open spec fn view(&self) -> PopulationView {
        match self {
            Population::Nothing => PopulationView::Nothing,
            Population::MarkHead(h) => PopulationView::MarkHead(h@),
            Population::Fetch { range, max_count } => PopulationView::Fetch(
                range@,
                match max_count {
                    Some(n) => Some(*n as nat),
                    None => None,
                },
            ),
        }
    }
}

/// How the history is brought up to date. Outside a repository, and when `HEAD` has been
/// processed, nothing is done. From a processed commit that still exists the commits up to `HEAD`
/// are fetched, unless they are more than `bound`; where git cannot count them, they are taken to be
/// as many as a machine word can count. In every other case the newest `bound` commits are.
pub open spec fn population_of(
    head: Option<Seq<char>>,
    last_sha: Option<Seq<char>>,
    last_exists: bool,
    behind: Option<usize>,
    bound: nat,
) -> PopulationView {
    let count = match behind {
        Some(n) => n,
        None => usize::MAX,
    };
    if head is None || last_sha == head {
        PopulationView::Nothing
    } else if last_sha is Some && last_exists && count == 0 {
        PopulationView::MarkHead(head->0)
    } else if last_sha is Some && last_exists && count <= bound {
        PopulationView::Fetch(last_sha->0 + "..HEAD"@, None)
    } else {
        PopulationView::Fetch("HEAD"@, Some(bound))
    }
}

/// How the history is brought up to date, with at most `bound` commits on a cold start.
pub fn populate_history_with_bound(facts: &HistoryFacts, bound: usize) -> (r: Population)
    ensures
        r@ == population_of(
            crate::text::opt_text(facts.head),
            crate::text::opt_text(facts.last_sha),
            facts.last_exists,
            facts.behind,
            bound as nat,
        ),
{
    let head: &String = match &facts.head {
        Some(h) => h,
        None => {
            return Population::Nothing;
        },
    };
    match &facts.last_sha {
        Some(sha) => {
            if same_text(sha, head) {
                return Population::Nothing;
            }
            if facts.last_exists {
                let count: usize = match facts.behind {
                    Some(n) => n,
                    None => usize::MAX,
                };
                if count == 0 {
                    return Population::MarkHead(head.clone());
                }
                if count <= bound {
                    return Population::Fetch {
                        range: sha.clone().concat("..HEAD"),
                        max_count: None,
                    };
                }
            }
        },
        None => {},
    }
    Population::Fetch { range: "HEAD".to_owned(), max_count: Some(bound) }
}

/// How the history is brought up to date, given the setting `SEMANTEX_HISTORY_COMMITS`.
pub fn populate_history(facts: &HistoryFacts, setting: Option<&str>) -> (r: Population)
    ensures
        r@ == population_of(
            crate::text::opt_text(facts.head),
            crate::text::opt_text(facts.last_sha),
            facts.last_exists,
            facts.behind,
            positive_setting(
                match setting {
                    Some(s) => Some(s@),
                    None => None,
                },
                DEFAULT_HISTORY_COMMITS as nat,
            ),
        ),
{
    populate_history_with_bound(facts, history_commit_limit(setting))
}

/// The commit to record as processed after a fetch: the newest one fetched, or the one at `HEAD`
/// if there was none.
pub open spec fn watermark_of(head: Seq<char>, fetched: Seq<RawCommitView>) -> Seq<char> {
    if fetched.len() == 0 {
        head
    } else {
        fetched.last().hash
    }
}

/// The commit to record as processed after a fetch: the newest one fetched, or the one at `HEAD`
/// if there was none.
pub fn next_watermark(head: &str, fetched: &Vec<RawCommit>) -> (r: String)
    ensures
        r@ == watermark_of(head@, views(fetched@)),
{
    if fetched.len() == 0 {
        head.to_owned()
    } else {
        fetched[fetched.len() - 1].hash.clone()
    }
}

/// When `HEAD` has been processed, the next run does nothing, whatever git tells of it.
pub proof fn lemma_caught_up(
    head: Seq<char>,
    last_exists: bool,
    behind: Option<usize>,
    bound: nat,
)
    ensures
        population_of(Some(head), Some(head), last_exists, behind, bound)
            == PopulationView::Nothing,
{
}

/// The tables of a history.
pub struct HistoryTables {
    /// The author, the time, the message and the body of each commit, by its hash.
    pub commits: Map<Seq<char>, (Seq<char>, int, Seq<char>, Seq<char>)>,
    /// Which file was touched by which commit.
    pub files: Set<(Seq<char>, Seq<char>)>,
    /// The newest commit that has been processed.
    pub last_sha: Option<Seq<char>>,
}

/// The tables after a row is stored: a commit that is there stays as it is.
pub open spec fn with_row(t: HistoryTables, r: CommitRowView) -> HistoryTables {
    HistoryTables {
        commits: if t.commits.contains_key(r.hash) {
            t.commits
        } else {
            t.commits.insert(r.hash, (r.author, r.ts, r.message, r.body))
        },
        files: t.files.union(
            Set::new(|f: (Seq<char>, Seq<char>)| f.1 == r.hash && r.files.contains(f.0)),
        ),
        ..t
    }
}

/// The tables after the rows are stored, one after the other.
pub open spec fn with_rows(t: HistoryTables, rows: Seq<CommitRowView>) -> HistoryTables
    decreases rows.len(),
{
    if rows.len() == 0 {
        t
    } else {
        with_row(with_rows(t, rows.drop_last()), rows.last())
    }
}

/// What git answers when the history is brought up to date.
pub struct GitAnswers {
    /// Whether the processed commit still exists.
    pub last_exists: bool,
    /// How many commits lie between it and `HEAD`.
    pub behind: Option<usize>,
    /// The commits of the range that is asked for, the newest last.
    pub listed: Seq<RawCommitView>,
    /// The files that they touch.
    pub changed: Seq<(Seq<char>, Seq<Seq<char>>)>,
}

/// The tables after the history has been brought up to date.
pub open spec fn populated(
    t: HistoryTables,
    head: Option<Seq<char>>,
    git: GitAnswers,
    bound: nat,
) -> HistoryTables {
    match population_of(head, t.last_sha, git.last_exists, git.behind, bound) {
        PopulationView::Nothing => t,
        PopulationView::MarkHead(h) => HistoryTables { last_sha: Some(h), ..t },
        PopulationView::Fetch(_, _) => HistoryTables {
            last_sha: Some(watermark_of(head->0, git.listed)),
            ..with_rows(t, rows_of(git.listed, git.changed))
        },
    }
}

/// To bring the history up to date a second time, with `HEAD` where it was, changes nothing,
/// whatever git answers then; and outside a repository nothing is ever done. The range that is
/// asked for ends at `HEAD`, so the newest commit that git lists, if it lists one, is the one there.
pub proof fn lemma_second_population(
    t: HistoryTables,
    head: Option<Seq<char>>,
    first: GitAnswers,
    second: GitAnswers,
    bound: nat,
)
    requires
        first.listed.len() > 0 ==> Some(first.listed.last().hash) == head,
    ensures
        populated(populated(t, head, first, bound), head, second, bound) == populated(
            t,
            head,
            first,
            bound,
        ),
        head is Some ==> populated(t, head, first, bound).last_sha == head,
        head is None ==> populated(t, head, first, bound) == t,
{
}

/// A run only adds: every commit and every touched file that is recorded stays as it is, whatever
/// git answers; a batch that is stored again changes nothing, and neither does a run in which git
/// lists only commits that are stored, with the files that they touch.
pub proof fn lemma_population_adds(
    t: HistoryTables,
    head: Option<Seq<char>>,
    git: GitAnswers,
    bound: nat,
)
    ensures
        ({
            let after = populated(t, head, git, bound);
            &&& forall|h: Seq<char>| #[trigger]
                t.commits.contains_key(h) ==> after.commits.contains_key(h) && after.commits[h]
                    == t.commits[h]
            &&& t.files.subset_of(after.files)
        }),
        ({
            let rows = rows_of(git.listed, git.changed);
            let after = populated(t, head, git, bound);
            &&& with_rows(with_rows(t, rows), rows) == with_rows(t, rows)
            &&& (forall|i: int| 0 <= i < rows.len() ==> is_stored(t, #[trigger] rows[i]))
                ==> after.commits == t.commits && after.files == t.files
        }),
{
    let rows = rows_of(git.listed, git.changed);
    if forall|i: int| 0 <= i < rows.len() ==> is_stored(t, #[trigger] rows[i]) {
        lemma_rows_known(t, rows);
    }
    lemma_rows_add(t, rows);
    lemma_rows_known(with_rows(t, rows), rows);
}

proof fn lemma_rows_add(t: HistoryTables, rows: Seq<CommitRowView>)
    ensures
        ({
            let after = with_rows(t, rows);
            &&& after.last_sha == t.last_sha
            &&& forall|h: Seq<char>| #[trigger]
                t.commits.contains_key(h) ==> after.commits.contains_key(h) && after.commits[h]
                    == t.commits[h]
            &&& t.files.subset_of(after.files)
            &&& forall|i: int|
                0 <= i < rows.len() ==> is_stored(after, #[trigger] rows[i])
        }),
    decreases rows.len(),
{
    if rows.len() > 0 {
        let front = rows.drop_last();
        let before = with_rows(t, front);
        let after = with_rows(t, rows);
        lemma_rows_add(t, front);
        assert forall|i: int| 0 <= i < rows.len() implies is_stored(after, #[trigger] rows[i]) by {
            if i < front.len() {
                assert(front[i] == rows[i]);
                assert(is_stored(before, front[i]));
            }
        }
    }
}

/// The commit and its files are recorded.
pub open spec fn is_stored(t: HistoryTables, r: CommitRowView) -> bool {
    &&& t.commits.contains_key(r.hash)
    &&& forall|f: Seq<char>| #[trigger] r.files.contains(f) ==> t.files.contains((f, r.hash))
}

proof fn lemma_rows_known(t: HistoryTables, rows: Seq<CommitRowView>)
    requires
        forall|i: int| 0 <= i < rows.len() ==> is_stored(t, #[trigger] rows[i]),
    ensures
        with_rows(t, rows) == t,
    decreases rows.len(),
{
    if rows.len() > 0 {
        let front = rows.drop_last();
        assert forall|i: int| 0 <= i < front.len() implies is_stored(t, #[trigger] front[i]) by {
            assert(front[i] == rows[i]);
        }
        lemma_rows_known(t, front);
        let r = rows[rows.len() - 1];
        assert(is_stored(t, r));
        assert(with_row(t, r).files =~= t.files);
    }
}

/// A fetch never asks for more than `bound` commits: either it names that number, or there are no
/// more between the processed commit and `HEAD`.
pub proof fn lemma_population_bounded(
    head: Option<Seq<char>>,
    last_sha: Option<Seq<char>>,
    last_exists: bool,
    behind: usize,
    bound: nat,
)
    ensures
        match population_of(head, last_sha, last_exists, Some(behind), bound) {
            PopulationView::Fetch(_, Some(n)) => n == bound,
            PopulationView::Fetch(range, None) => behind <= bound && last_sha is Some && range
                == last_sha->0 + "..HEAD"@,
            _ => true,
        },
{
}

/// The files to blame after a build that changed `changed_files`, given the setting
/// `SEMANTEX_HISTORY_BLAME`: none unless it is `1`, and never more than 500.
pub fn populate_history_best_effort(setting: Option<&str>, changed_files: &Vec<String>) -> (r: Vec<
    String,
>)
    ensures
        views(r@) == blamed_files(
            match setting {
                Some(s) => Some(s@),
                None => None,
            },
            views(changed_files@),
        ),
{
    let mut r: Vec<String> = Vec::new();
    proof {
        assert(views(r@) =~= Seq::<Seq<char>>::empty());
    }
    if blame_enabled(setting) {
        r = copy_texts(changed_files);
        let ghost full = views(r@);
        if MAX_BLAME_FILES < r.len() {
            r.truncate(MAX_BLAME_FILES);
            proof {
                assert(views(r@) =~= full.take(MAX_BLAME_FILES as int));
            }
        }
    }
    r
}

/// The 40 hexadecimal digits of a commit hash.
pub open spec fn is_full_sha(s: Seq<char>) -> bool {
    s.len() == 40 && crate::text::all_hex(s)
}

/// Every character is `0`: the hash that stands for lines not yet committed.
pub open spec fn is_zero_sha(s: Seq<char>) -> bool {
    forall|i: int| 0 <= i < s.len() ==> #[trigger] s[i] == '0'
}

/// The line number and the commit in a header line of `git blame --porcelain`.
pub open spec fn blame_header(line: Seq<char>) -> Option<(nat, Seq<char>)> {
    let w = words(line);
    if w.len() >= 3 && is_full_sha(w[0]) && !is_zero_sha(w[0]) {
        match unsigned_upto(w[2], u32::MAX as nat) {
            Some(n) => Some((n, w[0])),
            None => None,
        }
    } else {
        None
    }
}

/// A header line for a line that is not committed yet.
pub open spec fn blame_zero(line: Seq<char>) -> bool {
    let w = words(line);
    w.len() > 0 && is_full_sha(w[0]) && is_zero_sha(w[0])
}

/// The attributions read from the lines of `git blame --porcelain`, and the header that no content
/// line has followed yet.
pub open spec fn blame_read(ls: Seq<Seq<char>>) -> (
    Seq<(nat, Seq<char>)>,
    Option<(nat, Seq<char>)>,
)
    decreases ls.len(),
{
    if ls.len() == 0 {
        (Seq::empty(), None)
    } else {
        let (done, current) = blame_read(ls.drop_last());
        let line = ls.last();
        if line.len() > 0 && line[0] == '\t' {
            match current {
                Some(pair) => (done.push(pair), None),
                None => (done, None),
            }
        } else if blame_zero(line) {
            (done, None)
        } else {
            match blame_header(line) {
                Some(pair) => (done, Some(pair)),
                None => (done, current),
            }
        }
    }
}

/// A line of a file and the commit that it is attributed to.
pub open spec fn blame_view(s: Seq<(u32, String)>) -> Seq<(nat, Seq<char>)> {
    Seq::new(s.len(), |i: int| (s[i].0 as nat, s[i].1@))
}

/// Whether every character is `0`.
fn all_zero(v: &Vec<char>) -> (r: bool)
    ensures
        r == is_zero_sha(v@),
{
    let mut i: usize = 0;
    while i < v.len()
        invariant
            i <= v@.len(),
            forall|k: int| 0 <= k < i ==> #[trigger] v@[k] == '0',
        decreases v@.len() - i,
    {
        if v[i] != '0' {
            return false;
        }
        i = i + 1;
    }
    true
}

/// The commit that each line of a file is attributed to, from the output of
/// `git blame --porcelain`. Lines that are not committed yet are attributed to none.
pub fn parse_blame_porcelain(output: &str) -> (r: Vec<(u32, String)>)
    ensures
        blame_view(r@) == blame_read(text_lines(output@)).0,
{
    let ls: Vec<String> = lines(output);
    let ghost all = views(ls@);
    let mut r: Vec<(u32, String)> = Vec::new();
    let mut current: Option<(u32, String)> = None;
    let mut i: usize = 0;
    proof {
        assert(blame_view(r@) =~= blame_read(all.take(0)).0);
    }
    while i < ls.len()
        invariant
            i <= ls@.len(),
            all == views(ls@),
            blame_view(r@) == blame_read(all.take(i as int)).0,
            (match current {
                Some(c) => Some((c.0 as nat, c.1@)),
                None => None,
            }) == blame_read(all.take(i as int)).1,
        decreases ls@.len() - i,
    {
        let ghost done = blame_view(r@);
        proof {
            assert(all.take(i + 1).drop_last() =~= all.take(i as int));
            assert(all.take(i + 1).last() == ls@[i as int]@);
        }
        let v: Vec<char> = crate::text::chars_of(&ls[i]);
        if v.len() > 0 && v[0] == '\t' {
            match current {
                Some(pair) => {
                    r.push(pair);
                    proof {
                        assert(blame_view(r@) =~= done.push((pair.0 as nat, pair.1@)));
                    }
                },
                None => {},
            }
            current = None;
        } else {
            let w: Vec<String> = split_whitespace(&ls[i]);
            proof {
                assert forall|k: int| 0 <= k < w@.len() implies words(ls@[i as int]@)[k] == (
                #[trigger] w@[k])@ by {}
            }
            if w.len() > 0 {
                let sha: Vec<char> = crate::text::chars_of(&w[0]);
                if sha.len() == 40 && crate::text::is_all_hex(&sha) {
                    if all_zero(&sha) {
                        current = None;
                    } else if w.len() >= 3 {
                        match parse_unsigned(&w[2], u32::MAX as u64) {
                            Some(n) => {
                                current = Some((n as u32, w[0].clone()));
                            },
                            None => {},
                        }
                    }
                }
            }
        }
        i = i + 1;
    }
    proof {
        assert(all.take(i as int) =~= all);
    }
    r
}

/// The commit that the line `line` is attributed to, by the last attribution of it.
pub open spec fn blamed(blame: Seq<(nat, Seq<char>)>, line: nat) -> Option<Seq<char>>
    decreases blame.len(),
{
    if blame.len() == 0 {
        None
    } else if blame.last().0 == line {
        Some(blame.last().1)
    } else {
        blamed(blame.drop_last(), line)
    }
}

/// The commits that the lines from `start` up to but not including `end` are attributed to, each
/// once, in the order in which they first occur.
pub open spec fn blamed_between(
    blame: Seq<(nat, Seq<char>)>,
    start: int,
    end: int,
) -> Seq<Seq<char>>
    decreases end - start,
{
    if end <= start {
        Seq::empty()
    } else {
        let r = blamed_between(blame, start, end - 1);
        match blamed(blame, (end - 1) as nat) {
            Some(sha) => if r.contains(sha) {
                r
            } else {
                r.push(sha)
            },
            None => r,
        }
    }
}

/// The commit that the line `line` is attributed to.
fn find_blamed(blame: &Vec<(u32, String)>, line: u32) -> (r: Option<usize>)
    ensures
        match r {
            Some(i) => i < blame@.len() && blamed(blame_view(blame@), line as nat) == Some(
                blame@[i as int].1@,
            ),
            None => blamed(blame_view(blame@), line as nat) is None,
        },
{
    let ghost all = blame_view(blame@);
    let mut i: usize = blame.len();
    proof {
        assert(all.take(i as int) =~= all);
    }
    while i > 0
        invariant
            i <= blame@.len(),
            all == blame_view(blame@),
            blamed(all, line as nat) == blamed(all.take(i as int), line as nat),
        decreases i,
    {
        proof {
            assert(all.take(i as int).drop_last() =~= all.take(i - 1));
        }
        if blame[i - 1].0 == line {
            return Some(i - 1);
        }
        i = i - 1;
    }
    None
}

/// The commits that a chunk is attributed to: those of its lines, from its first to its last, each
/// once, in the order in which they first occur.
pub fn chunk_blame(blame: &Vec<(u32, String)>, start_line: u32, end_line: u32) -> (r: Vec<String>)
    ensures
        views(r@) == chunk_commits(blame_view(blame@), start_line as int, end_line as int),
{
    let ghost all = blame_view(blame@);
    let mut r: Vec<String> = Vec::new();
    let end: u64 = end_line as u64 + 1;
    let mut line: u64 = start_line as u64;
    proof {
        assert(views(r@) =~= blamed_between(all, start_line as int, start_line as int));
    }
    while line < end
        invariant
            end == end_line + 1,
            start_line <= line,
            all == blame_view(blame@),
            start_line <= end ==> line <= end,
            start_line > end ==> line == start_line,
            views(r@) == blamed_between(all, start_line as int, line as int),
        decreases end - line,
    {
        let ghost shown = views(r@);
        match find_blamed(blame, line as u32) {
            Some(i) => {
                if !crate::text::holds_text(&r, &blame[i].1) {
                    r.push(blame[i].1.clone());
                    proof {
                        assert(views(r@) =~= shown.push(blame@[i as int].1@));
                    }
                }
            },
            None => {},
        }
        line = line + 1;
    }
    proof {
        if line > end {
            assert(blamed_between(all, start_line as int, end as int) =~= views(r@));
        }
    }
    r
}

/// Filters for commits; every field that is present narrows the result.
#[derive(Debug, Clone)]
pub struct HistoryFilter {
    /// Only commits after this time.
    pub since_ts: Option<i64>,
    /// Only commits whose author contains this text.
    pub author: Option<String>,
    /// Only commits that touched this path.
    pub file: Option<String>,
    /// Only commits whose message contains this text.
    pub message_query: Option<String>,
    /// The most commits to give; 0 stands for 20.
    pub limit: usize,
}

impl Default for HistoryFilter {
    /// No filter at all.
    fn default() -> (r: HistoryFilter)
        ensures
            r.since_ts is None,
            r.author is None,
            r.file is None,
            r.message_query is None,
            r.limit == 0,
    {
        HistoryFilter { since_ts: None, author: None, file: None, message_query: None, limit: 0 }
    }
}

/// A value bound to a placeholder of a statement.
#[derive(Debug, Clone)]
pub enum SqlValue {
    Integer(i64),
    Text(String),
}

/// What a [`SqlValue`] holds.
pub enum SqlValueView {
    Integer(i64),
    Text(Seq<char>),
}

impl View for SqlValue {
    type V = SqlValueView;

    open spec fn view(&self) -> SqlValueView {
        match self {
            SqlValue::Integer(n) => SqlValueView::Integer(*n),
            SqlValue::Text(t) => SqlValueView::Text(t@),
        }
    }
}

/// How commits are looked up.
#[derive(Debug, Clone)]
pub enum CommitQuery {
    /// By their messages alone.
    Search { query: String, limit: usize },
    /// By a statement and the values bound to its placeholders.
    Select { sql: String, bound: Vec<SqlValue> },
}

/// The pattern that matches every text that contains `q`; wildcards in `q` are left out.
pub open spec fn like_pattern(q: Seq<char>) -> Seq<char> {
    "%"@ + without_wildcards(q) + "%"@
}

/// The pattern that matches every text that contains `q`.
pub fn like_text(q: &str) -> (r: String)
    ensures
        r@ == like_pattern(q@),
{
    "%".to_owned().concat(&strip_wildcards(q)).concat("%")
}

/// A clause if it applies, else nothing.
pub open spec fn clause_if(applies: bool, clause: Seq<char>) -> Seq<char> {
    if applies {
        clause
    } else {
        Seq::empty()
    }
}

/// The statement for a filter.
pub open spec fn filter_sql(f: HistoryFilter) -> Seq<char> {
    "SELECT DISTINCT c.hash, c.author, c.ts, c.message FROM commits c"@ + clause_if(
        f.file is Some,
        " JOIN file_commits f ON f.hash = c.hash"@,
    ) + " WHERE 1=1"@ + clause_if(f.since_ts is Some, " AND c.ts > ?"@) + clause_if(
        f.author is Some,
        " AND c.author LIKE ?"@,
    ) + clause_if(f.file is Some, " AND f.path = ?"@) + clause_if(
        f.message_query is Some,
        " AND c.message LIKE ?"@,
    ) + " ORDER BY c.ts DESC, c.rowid DESC LIMIT ?"@
}

/// A value if it is present, else nothing.
pub open spec fn value_if(v: Option<SqlValueView>) -> Seq<SqlValueView> {
    match v {
        Some(x) => seq![x],
        None => Seq::empty(),
    }
}

/// The most commits that a filter gives.
pub open spec fn filter_limit(f: HistoryFilter) -> usize {
    if f.limit == 0 {
        20
    } else {
        f.limit
    }
}

/// The values for the placeholders of the statement for a filter, in their order.
pub open spec fn filter_bound(f: HistoryFilter) -> Seq<SqlValueView> {
    value_if(
        match f.since_ts {
            Some(t) => Some(SqlValueView::Integer(t)),
            None => None,
        },
    ) + value_if(
        match f.author {
            Some(a) => Some(SqlValueView::Text(like_pattern(a@))),
            None => None,
        },
    ) + value_if(
        match f.file {
            Some(p) => Some(SqlValueView::Text(p@)),
            None => None,
        },
    ) + value_if(
        match f.message_query {
            Some(q) => Some(SqlValueView::Text(like_pattern(q@))),
            None => None,
        },
    ) + seq![SqlValueView::Integer(filter_limit(f) as i64)]
}

/// Adds a clause and its value to a statement.
fn add_clause(sql: String, bound: &mut Vec<SqlValue>, clause: &str, value: Option<SqlValue>) -> (r:
    String)
    ensures
        r@ == sql@ + clause_if(value is Some, clause@),
        views(final(bound)@) == views(old(bound)@) + value_if(
            match value {
                Some(v) => Some(v@),
                None => None,
            },
        ),
{
    match value {
        Some(v) => {
            let ghost before = views(bound@);
            bound.push(v);
            proof {
                assert(views(bound@) =~= before + seq![v@]);
            }
            sql.concat(clause)
        },
        None => {
            proof {
                assert(sql@ + Seq::<char>::empty() =~= sql@);
                assert(views(bound@) + Seq::<SqlValueView>::empty() =~= views(bound@));
            }
            sql
        },
    }
}

/// How the commits are looked up that a filter lets through, the newest first: by their messages
/// if nothing else is asked of them, else by a statement.
pub fn filter_commits(filter: &HistoryFilter) -> (r: CommitQuery)
    ensures
        ({
            let message_only = is_message_search(*filter);
            match r {
                CommitQuery::Search { query, limit } => message_only && query@
                    == filter.message_query->0@ && limit == filter_limit(*filter),
                CommitQuery::Select { sql, bound } => !message_only && sql@ == filter_sql(*filter)
                    && views(bound@) == filter_bound(*filter),
            }
        }),
{
    let limit: usize = if filter.limit == 0 {
        20
    } else {
        filter.limit
    };
    if filter.since_ts.is_none() && filter.author.is_none() && filter.file.is_none() {
        match &filter.message_query {
            Some(q) => {
                return CommitQuery::Search { query: q.clone(), limit };
            },
            None => {},
        }
    }
    let mut bound: Vec<SqlValue> = Vec::new();
    let start: String =
        "SELECT DISTINCT c.hash, c.author, c.ts, c.message FROM commits c".to_owned();
    let joined: String = if filter.file.is_some() {
        start.concat(" JOIN file_commits f ON f.hash = c.hash")
    } else {
        proof {
            assert(start@ + Seq::<char>::empty() =~= start@);
        }
        start
    };
    let s0: String = joined.concat(" WHERE 1=1");
    proof {
        assert(views(bound@) =~= Seq::<SqlValueView>::empty());
    }
    let since: Option<SqlValue> = match filter.since_ts {
        Some(t) => Some(SqlValue::Integer(t)),
        None => None,
    };
    let s1: String = add_clause(s0, &mut bound, " AND c.ts > ?", since);
    let author: Option<SqlValue> = match &filter.author {
        Some(a) => Some(SqlValue::Text(like_text(a))),
        None => None,
    };
    let s2: String = add_clause(s1, &mut bound, " AND c.author LIKE ?", author);
    let file: Option<SqlValue> = match &filter.file {
        Some(p) => Some(SqlValue::Text(p.clone())),
        None => None,
    };
    let s3: String = add_clause(s2, &mut bound, " AND f.path = ?", file);
    let message: Option<SqlValue> = match &filter.message_query {
        Some(q) => Some(SqlValue::Text(like_text(q))),
        None => None,
    };
    let s4: String = add_clause(s3, &mut bound, " AND c.message LIKE ?", message);
    let sql: String = add_clause(
        s4,
        &mut bound,
        " ORDER BY c.ts DESC, c.rowid DESC LIMIT ?",
        Some(SqlValue::Integer(limit as i64)),
    );
    proof {
        let e = Seq::<SqlValueView>::empty();
        assert(views(bound@) =~= filter_bound(*filter));
        assert(sql@ =~= filter_sql(*filter));
    }
    CommitQuery::Select { sql, bound }
}

/// How commit messages are searched: with the full-text index, or by a pattern where there is no
/// such index or it rejects the query.
#[derive(Debug, Clone)]
pub struct MessageSearch {
    pub fts_query: String,
    pub like: String,
}

/// How commit messages are searched for `query`; not at all if it is blank.
pub fn search_commit_messages(query: &str) -> (r: Option<MessageSearch>)
    ensures
        match r {
            Some(m) => trimmed(query@).len() > 0 && m.fts_query@ == trimmed(query@) && m.like@
                == like_pattern(trimmed(query@)),
            None => trimmed(query@).len() == 0,
        },
{
    let q: String = trim(query);
    if q.as_str().is_empty() {
        None
    } else {
        let like: String = like_text(&q);
        Some(MessageSearch { fts_query: q, like })
    }
}

/// No character of user input acts as a wildcard in the pattern made from it.
pub proof fn lemma_like_pattern(q: Seq<char>)
    ensures
        forall|i: int|
            0 < i < like_pattern(q).len() - 1 ==> #[trigger] like_pattern(q)[i] != '%'
                && like_pattern(q)[i] != '_',
{
    reveal_strlit("%");
    let keep = |c: char| c != '%' && c != '_';
    let w = q.filter(keep);
    assert forall|i: int| 0 < i < like_pattern(q).len() - 1 implies #[trigger] like_pattern(q)[i]
        != '%' && like_pattern(q)[i] != '_' by {
        q.lemma_filter_pred(keep, i - 1);
        assert(like_pattern(q)[i] == w[i - 1]);
    }
}

/// The fields, each ended by NUL.
pub open spec fn nul_ended(fields: Seq<Seq<char>>) -> Seq<char>
    decreases fields.len(),
{
    if fields.len() == 0 {
        Seq::empty()
    } else {
        nul_ended(fields.drop_last()) + fields.last().push('\0')
    }
}

/// No field holds NUL.
pub open spec fn nul_free(fields: Seq<Seq<char>>) -> bool {
    forall|i: int| 0 <= i < fields.len() ==> !(#[trigger] fields[i]).contains('\0')
}

proof fn lemma_split_nul_ended(fields: Seq<Seq<char>>, g: Seq<char>)
    requires
        nul_free(fields),
    ensures
        split_at_each(nul_ended(fields) + g, '\0') == fields + split_at_each(g, '\0'),
    decreases fields.len(),
{
    if fields.len() == 0 {
        assert(nul_ended(fields) + g =~= g);
        assert(fields + split_at_each(g, '\0') =~= split_at_each(g, '\0'));
    } else {
        let front = fields.drop_last();
        let f = fields.last();
        assert(nul_free(front)) by {
            assert forall|i: int| 0 <= i < front.len() implies !(#[trigger] front[i]).contains(
                '\0',
            ) by {
                assert(front[i] == fields[i]);
            }
        }
        assert(nul_ended(fields) + g =~= nul_ended(front) + (f.push('\0') + g));
        lemma_split_nul_ended(front, f.push('\0') + g);
        crate::text::lemma_split_concat(f, g, '\0');
        assert(!fields[fields.len() - 1].contains('\0'));
        crate::text::lemma_split_single(f, '\0');
        assert(front + (seq![f] + split_at_each(g, '\0')) =~= fields + split_at_each(g, '\0'));
    }
}

/// The fields of the records that `git log` prints, five a record: it puts a line break in front
/// of every record but the first.
pub open spec fn log_fields(records: Seq<Seq<Seq<char>>>, first: bool) -> Seq<Seq<char>>
    decreases records.len(),
{
    if records.len() == 0 {
        Seq::empty()
    } else {
        let r = records[0];
        let head = if first {
            r
        } else {
            r.update(0, seq!['\n'] + r[0])
        };
        head + log_fields(records.skip(1), false)
    }
}

/// The commits in the records, each read from its own five fields.
pub open spec fn commits_of(records: Seq<Seq<Seq<char>>>) -> Seq<RawCommitView>
    decreases records.len(),
{
    if records.len() == 0 {
        Seq::empty()
    } else {
        let rest = commits_of(records.skip(1));
        match commit_in_fields(records[0]) {
            Some(c) => seq![c] + rest,
            None => rest,
        }
    }
}

proof fn lemma_log_fields(records: Seq<Seq<Seq<char>>>, first: bool)
    requires
        forall|i: int|
            0 <= i < records.len() ==> (#[trigger] records[i]).len() == 5 && nul_free(records[i]),
    ensures
        nul_free(log_fields(records, first)),
        commits_in_fields(log_fields(records, first).push(Seq::empty())) == commits_of(records),
    decreases records.len(),
{
    let all = log_fields(records, first);
    if records.len() > 0 {
        let r = records[0];
        let rest = records.skip(1);
        let head = if first {
            r
        } else {
            r.update(0, seq!['\n'] + r[0])
        };
        assert forall|i: int| 0 <= i < rest.len() implies (#[trigger] rest[i]).len() == 5
            && nul_free(rest[i]) by {
            assert(rest[i] == records[i + 1]);
        }
        lemma_log_fields(rest, false);
        let tail = log_fields(rest, false);
        assert(!r[0].contains('\0'));
        assert(nul_free(head)) by {
            assert forall|i: int| 0 <= i < head.len() implies !(#[trigger] head[i]).contains(
                '\0',
            ) by {
                assert(!r[i].contains('\0'));
                if i == 0 && !first && head[0].contains('\0') {
                    let k = choose|k: int| 0 <= k < head[0].len() && head[0][k] == '\0';
                    assert(r[0][k - 1] == '\0');
                }
            }
        }
        assert(nul_free(all)) by {
            assert forall|i: int| 0 <= i < all.len() implies !(#[trigger] all[i]).contains(
                '\0',
            ) by {
                if i < 5 {
                    assert(all[i] == head[i]);
                } else {
                    assert(all[i] == tail[i - 5]);
                }
            }
        }
        let ended = all.push(Seq::<char>::empty());
        assert(ended.take(5) =~= head);
        assert(ended.skip(5) =~= tail.push(Seq::<char>::empty()));
        assert(crate::text::trimmed_start(seq!['\n'] + r[0]) == crate::text::trimmed_start(r[0]))
            by {
            assert((seq!['\n'] + r[0]).skip(1) =~= r[0]);
        }
        assert(commit_in_fields(head) == commit_in_fields(r));
    }
}

/// Reading the output of `git log` is exact: whatever the authors, subjects and bodies hold, as
/// long as they hold no NUL, each record gives the commit in its own five fields and nothing
/// else. No text can forge a commit.
pub proof fn lemma_commit_log_exact(records: Seq<Seq<Seq<char>>>)
    requires
        forall|i: int|
            0 <= i < records.len() ==> (#[trigger] records[i]).len() == 5 && nul_free(records[i]),
    ensures
        commits_in_fields(split_at_each(nul_ended(log_fields(records, true)), '\0'))
            == commits_of(records),
{
    let fields = log_fields(records, true);
    lemma_log_fields(records, true);
    lemma_split_nul_ended(fields, Seq::empty());
    assert(nul_ended(fields) + Seq::<char>::empty() =~= nul_ended(fields));
    assert(fields + split_at_each(Seq::empty(), '\0') =~= fields.push(Seq::<char>::empty()));
}

/// The files of a commit are those of the last block under its hash, so those of the only one where
/// there is only one; without a block there are none.
pub proof fn lemma_files_lookup(changed: Seq<(Seq<char>, Seq<Seq<char>>)>, hash: Seq<char>)
    ensures
        forall|i: int|
            0 <= i < changed.len() && (#[trigger] changed[i]).0 == hash && (forall|j: int|
                i < j < changed.len() ==> (#[trigger] changed[j]).0 != hash) ==> files_of(
                changed,
                hash,
            ) == changed[i].1,
        (forall|i: int| 0 <= i < changed.len() ==> (#[trigger] changed[i]).0 != hash) ==> files_of(
            changed,
            hash,
        ).len() == 0,
    decreases changed.len(),
{
    if changed.len() > 0 {
        let front = changed.drop_last();
        let n = changed.len() - 1;
        lemma_files_lookup(front, hash);
        assert(changed[n] == changed.last());
        assert forall|i: int|
            0 <= i < changed.len() && (#[trigger] changed[i]).0 == hash && (forall|j: int|
                i < j < changed.len() ==> (#[trigger] changed[j]).0 != hash) implies files_of(
            changed,
            hash,
        ) == changed[i].1 by {
            if i < n {
                assert(changed[n].0 != hash);
                assert(front[i] == changed[i]);
                assert forall|j: int| i < j < front.len() implies (#[trigger] front[j]).0
                    != hash by {
                    assert(front[j] == changed[j]);
                }
            }
        }
        if forall|i: int| 0 <= i < changed.len() ==> (#[trigger] changed[i]).0 != hash {
            assert(changed[n].0 != hash);
            assert forall|j: int| 0 <= j < front.len() implies (#[trigger] front[j]).0 != hash by {
                assert(front[j] == changed[j]);
            }
        }
    }
}

/// The row of a commit has the hash, author, time and body of that commit, and no other; its
/// message is the subject, with the body below an empty line if there is one; and its files are
/// those that changed in it.
pub proof fn lemma_rows_of_commits(
    commits: Seq<RawCommitView>,
    changed: Seq<(Seq<char>, Seq<Seq<char>>)>,
)
    ensures
        rows_of(commits, changed).len() == commits.len(),
        forall|i: int|
            0 <= i < commits.len() ==> {
                let r = #[trigger] rows_of(commits, changed)[i];
                &&& r.hash == commits[i].hash
                &&& r.author == commits[i].author
                &&& r.ts == commits[i].ts
                &&& r.body == commits[i].body
                &&& commits[i].body.len() == 0 ==> r.message == commits[i].subject
                &&& commits[i].body.len() > 0 ==> r.message == commits[i].subject + seq![
                    '\n',
                    '\n',
                ] + commits[i].body
            },
        forall|i: int, j: int|
            0 <= i < commits.len() && 0 <= j < changed.len() && (#[trigger] changed[j]).0
                == commits[i].hash && (forall|k: int|
                j < k < changed.len() ==> (#[trigger] changed[k]).0 != commits[i].hash) ==> (
            #[trigger] rows_of(commits, changed)[i]).files == changed[j].1,
        forall|i: int|
            0 <= i < commits.len() && (forall|k: int|
                0 <= k < changed.len() ==> (#[trigger] changed[k]).0 != commits[i].hash) ==> (
            #[trigger] rows_of(commits, changed)[i]).files.len() == 0,
{
    reveal_strlit("\n\n");
    assert("\n\n"@ =~= seq!['\n', '\n']);
    let rows = rows_of(commits, changed);
    assert forall|i: int, j: int|
        0 <= i < commits.len() && 0 <= j < changed.len() && (#[trigger] changed[j]).0
            == commits[i].hash && (forall|k: int|
            j < k < changed.len() ==> (#[trigger] changed[k]).0 != commits[i].hash) implies (
    #[trigger] rows[i]).files == changed[j].1 by {
        lemma_files_lookup(changed, commits[i].hash);
    }
    assert forall|i: int|
        0 <= i < commits.len() && (forall|k: int|
            0 <= k < changed.len() ==> (#[trigger] changed[k]).0 != commits[i].hash) implies (
    #[trigger] rows[i]).files.len() == 0 by {
        lemma_files_lookup(changed, commits[i].hash);
    }
}

proof fn lemma_rows_recorded(t: HistoryTables, rows: Seq<CommitRowView>)
    ensures
        ({
            let u = with_rows(t, rows);
            &&& u.last_sha == t.last_sha
            &&& forall|h: Seq<char>| #[trigger]
                t.commits.contains_key(h) ==> u.commits.contains_key(h) && u.commits[h]
                    == t.commits[h]
            &&& forall|h: Seq<char>| #[trigger]
                u.commits.contains_key(h) ==> t.commits.contains_key(h) || exists|i: int|
                    0 <= i < rows.len() && (#[trigger] rows[i]).hash == h
            &&& forall|i: int|
                0 <= i < rows.len() ==> u.commits.contains_key((#[trigger] rows[i]).hash)
            &&& forall|i: int|
                0 <= i < rows.len() && !t.commits.contains_key((#[trigger] rows[i]).hash) && (
                forall|j: int| 0 <= j < i ==> (#[trigger] rows[j]).hash != rows[i].hash)
                    ==> u.commits[rows[i].hash] == (
                    rows[i].author,
                    rows[i].ts,
                    rows[i].message,
                    rows[i].body,
                )
            &&& forall|p: Seq<char>, h: Seq<char>| #[trigger]
                u.files.contains((p, h)) <==> t.files.contains((p, h)) || exists|i: int|
                    0 <= i < rows.len() && (#[trigger] rows[i]).hash == h && rows[i].files.contains(
                        p,
                    )
        }),
    decreases rows.len(),
{
    let u = with_rows(t, rows);
    if rows.len() > 0 {
        let front = rows.drop_last();
        let r = rows.last();
        let n = rows.len() - 1;
        let w = with_rows(t, front);
        lemma_rows_recorded(t, front);
        assert(rows[n] == r);
        assert forall|i: int| 0 <= i < n implies front[i] == #[trigger] rows[i] by {}
        assert forall|h: Seq<char>| #[trigger] u.commits.contains_key(h) implies
            t.commits.contains_key(h) || exists|i: int|
            0 <= i < rows.len() && (#[trigger] rows[i]).hash == h by {
            if h == r.hash {
                assert(rows[n].hash == h);
            } else {
                assert(w.commits.contains_key(h));
                if !t.commits.contains_key(h) {
                    let i = choose|i: int| 0 <= i < front.len() && (#[trigger] front[i]).hash == h;
                    assert(rows[i].hash == h);
                }
            }
        }
        assert forall|i: int| 0 <= i < rows.len() implies u.commits.contains_key(
            (#[trigger] rows[i]).hash,
        ) by {
            if i < n {
                assert(w.commits.contains_key(front[i].hash));
            }
        }
        assert forall|i: int|
            0 <= i < rows.len() && !t.commits.contains_key((#[trigger] rows[i]).hash) && (
            forall|j: int|
                0 <= j < i ==> (#[trigger] rows[j]).hash != rows[i].hash) implies u.commits[rows[i].hash]
            == (rows[i].author, rows[i].ts, rows[i].message, rows[i].body) by {
            if i < n {
                assert forall|j: int| 0 <= j < i implies (#[trigger] front[j]).hash
                    != front[i].hash by {
                    assert(rows[j].hash != rows[i].hash);
                }
                assert(w.commits.contains_key(front[i].hash));
            } else {
                if w.commits.contains_key(r.hash) {
                    let j = choose|j: int|
                        0 <= j < front.len() && (#[trigger] front[j]).hash == r.hash;
                    assert(rows[j].hash != rows[i].hash);
                }
            }
        }
        assert forall|p: Seq<char>, h: Seq<char>| #[trigger] u.files.contains((p, h))
            <==> t.files.contains((p, h)) || exists|i: int|
            0 <= i < rows.len() && (#[trigger] rows[i]).hash == h && rows[i].files.contains(p) by {
            if u.files.contains((p, h)) && !t.files.contains((p, h)) {
                if w.files.contains((p, h)) {
                    let i = choose|i: int|
                        0 <= i < front.len() && (#[trigger] front[i]).hash == h
                            && front[i].files.contains(p);
                    assert(rows[i].hash == h);
                } else {
                    assert(rows[n].hash == h && rows[n].files.contains(p));
                }
            }
            if exists|i: int|
                0 <= i < rows.len() && (#[trigger] rows[i]).hash == h && rows[i].files.contains(
                    p,
                ) {
                let i = choose|i: int|
                    0 <= i < rows.len() && (#[trigger] rows[i]).hash == h && rows[i].files.contains(
                        p,
                    );
                if i < n {
                    assert(front[i].hash == h && front[i].files.contains(p));
                    assert(w.files.contains((p, h)));
                }
            }
            if t.files.contains((p, h)) {
                assert(w.files.contains((p, h)));
            }
        }
    }
}

proof fn lemma_message_of(c: RawCommitView)
    ensures
        c.body.len() == 0 ==> full_message(c) == c.subject,
        c.body.len() > 0 ==> full_message(c) == c.subject + seq!['\n', '\n'] + c.body,
{
    reveal_strlit("\n\n");
    assert("\n\n"@ =~= seq!['\n', '\n']);
}

proof fn lemma_listed_commit(
    t: HistoryTables,
    listed: Seq<RawCommitView>,
    changed: Seq<(Seq<char>, Seq<Seq<char>>)>,
    i: int,
)
    requires
        0 <= i < listed.len(),
        !t.commits.contains_key(listed[i].hash),
        forall|j: int| 0 <= j < i ==> (#[trigger] listed[j]).hash != listed[i].hash,
    ensures
        with_rows(t, rows_of(listed, changed)).commits[listed[i].hash] == (
            listed[i].author,
            listed[i].ts,
            full_message(listed[i]),
            listed[i].body,
        ),
{
    let rows = rows_of(listed, changed);
    lemma_rows_recorded(t, rows);
    assert forall|j: int| 0 <= j < i implies (#[trigger] rows[j]).hash != rows[i].hash by {
        assert(listed[j].hash != listed[i].hash);
    }
    assert(!t.commits.contains_key(rows[i].hash));
}

proof fn lemma_listed_commits(
    t: HistoryTables,
    listed: Seq<RawCommitView>,
    changed: Seq<(Seq<char>, Seq<Seq<char>>)>,
)
    ensures
        ({
            let u = with_rows(t, rows_of(listed, changed));
            &&& forall|i: int|
                0 <= i < listed.len() ==> u.commits.contains_key((#[trigger] listed[i]).hash)
            &&& forall|i: int|
                0 <= i < listed.len() && !t.commits.contains_key((#[trigger] listed[i]).hash) && (
                forall|j: int| 0 <= j < i ==> (#[trigger] listed[j]).hash != listed[i].hash) ==> {
                    let (author, ts, message, body) = u.commits[listed[i].hash];
                    &&& author == listed[i].author
                    &&& ts == listed[i].ts
                    &&& body == listed[i].body
                    &&& body.len() == 0 ==> message == listed[i].subject
                    &&& body.len() > 0 ==> message == listed[i].subject + seq!['\n', '\n'] + body
                }
            &&& forall|h: Seq<char>| #[trigger]
                u.commits.contains_key(h) ==> t.commits.contains_key(h) || exists|i: int|
                    0 <= i < listed.len() && (#[trigger] listed[i]).hash == h
            &&& forall|h: Seq<char>| #[trigger]
                t.commits.contains_key(h) ==> u.commits.contains_key(h) && u.commits[h]
                    == t.commits[h]
        }),
{
    let rows = rows_of(listed, changed);
    let w = with_rows(t, rows);
    lemma_rows_recorded(t, rows);
    assert forall|i: int| 0 <= i < listed.len() implies w.commits.contains_key(
        (#[trigger] listed[i]).hash,
    ) by {
        assert(w.commits.contains_key(rows[i].hash));
    }
    assert forall|i: int|
        0 <= i < listed.len() && !t.commits.contains_key((#[trigger] listed[i]).hash) && (forall|
            j: int,
        |
            0 <= j < i ==> (#[trigger] listed[j]).hash != listed[i].hash) implies {
        let (author, ts, message, body) = w.commits[listed[i].hash];
        &&& author == listed[i].author
        &&& ts == listed[i].ts
        &&& body == listed[i].body
        &&& body.len() == 0 ==> message == listed[i].subject
        &&& body.len() > 0 ==> message == listed[i].subject + seq!['\n', '\n'] + body
    } by {
        lemma_listed_commit(t, listed, changed, i);
        lemma_message_of(listed[i]);
    }
    assert forall|h: Seq<char>| #[trigger] w.commits.contains_key(h) implies
        t.commits.contains_key(h) || exists|i: int|
        0 <= i < listed.len() && (#[trigger] listed[i]).hash == h by {
        if !t.commits.contains_key(h) {
            let i = choose|i: int| 0 <= i < rows.len() && (#[trigger] rows[i]).hash == h;
            assert(listed[i].hash == h);
        }
    }
}

proof fn lemma_listed_files(
    t: HistoryTables,
    listed: Seq<RawCommitView>,
    changed: Seq<(Seq<char>, Seq<Seq<char>>)>,
)
    ensures
        ({
            let u = with_rows(t, rows_of(listed, changed));
            forall|p: Seq<char>, h: Seq<char>| #[trigger]
                u.files.contains((p, h)) <==> t.files.contains((p, h)) || (files_of(
                    changed,
                    h,
                ).contains(p) && exists|i: int|
                    0 <= i < listed.len() && (#[trigger] listed[i]).hash == h)
        }),
{
    let rows = rows_of(listed, changed);
    let w = with_rows(t, rows);
    lemma_rows_recorded(t, rows);
    assert forall|p: Seq<char>, h: Seq<char>| #[trigger] w.files.contains((p, h))
        <==> t.files.contains((p, h)) || (files_of(changed, h).contains(p) && exists|i: int|
        0 <= i < listed.len() && (#[trigger] listed[i]).hash == h) by {
        if w.files.contains((p, h)) && !t.files.contains((p, h)) {
            let i = choose|i: int|
                0 <= i < rows.len() && (#[trigger] rows[i]).hash == h && rows[i].files.contains(p);
            assert(listed[i].hash == h);
        }
        if files_of(changed, h).contains(p) && exists|i: int|
            0 <= i < listed.len() && (#[trigger] listed[i]).hash == h {
            let i = choose|i: int| 0 <= i < listed.len() && (#[trigger] listed[i]).hash == h;
            assert(rows[i].hash == h && rows[i].files.contains(p));
        }
    }
}

/// After a run that fetches, the tables hold every commit that git listed: one that was not there
/// before with the author, the time and the text that git printed for its hash, and with every file
/// that changed in it. Nothing else is recorded.
pub proof fn lemma_population_records(
    t: HistoryTables,
    head: Option<Seq<char>>,
    git: GitAnswers,
    bound: nat,
)
    requires
        population_of(head, t.last_sha, git.last_exists, git.behind, bound) is Fetch,
    ensures
        ({
            let u = populated(t, head, git, bound);
            &&& forall|i: int|
                0 <= i < git.listed.len() ==> u.commits.contains_key(
                    (#[trigger] git.listed[i]).hash,
                )
            &&& forall|i: int|
                0 <= i < git.listed.len() && !t.commits.contains_key((#[trigger] git.listed[i]).hash)
                    && (forall|j: int|
                    0 <= j < i ==> (#[trigger] git.listed[j]).hash != git.listed[i].hash) ==> {
                    let (author, ts, message, body) = u.commits[git.listed[i].hash];
                    &&& author == git.listed[i].author
                    &&& ts == git.listed[i].ts
                    &&& body == git.listed[i].body
                    &&& body.len() == 0 ==> message == git.listed[i].subject
                    &&& body.len() > 0 ==> message == git.listed[i].subject + seq!['\n', '\n']
                        + body
                }
            &&& forall|h: Seq<char>| #[trigger]
                u.commits.contains_key(h) ==> t.commits.contains_key(h) || exists|i: int|
                    0 <= i < git.listed.len() && (#[trigger] git.listed[i]).hash == h
            &&& forall|h: Seq<char>| #[trigger]
                t.commits.contains_key(h) ==> u.commits.contains_key(h) && u.commits[h]
                    == t.commits[h]
            &&& forall|p: Seq<char>, h: Seq<char>| #[trigger]
                u.files.contains((p, h)) <==> t.files.contains((p, h)) || (files_of(
                    git.changed,
                    h,
                ).contains(p) && exists|i: int|
                    0 <= i < git.listed.len() && (#[trigger] git.listed[i]).hash == h)
            &&& git.listed.len() > 0 ==> u.last_sha == Some(
                git.listed[git.listed.len() - 1].hash,
            )
            &&& git.listed.len() == 0 ==> u.last_sha == head
        }),
{
    lemma_listed_commits(t, git.listed, git.changed);
    lemma_listed_files(t, git.listed, git.changed);
}

/// What a run does: nothing outside a repository or where `HEAD` has been processed; it only marks
/// `HEAD` where the processed commit is known and no commit lies between; it asks for what lies
/// between where that is within the bound; and else for the newest commits, as many as the bound.
pub proof fn lemma_population_choice(
    head: Seq<char>,
    last: Seq<char>,
    last_exists: bool,
    behind: Option<usize>,
    bound: nat,
)
    ensures
        population_of(None, Some(last), last_exists, behind, bound) == PopulationView::Nothing,
        population_of(Some(head), None, last_exists, behind, bound) == PopulationView::Fetch(
            "HEAD"@,
            Some(bound),
        ),
        head == last ==> population_of(Some(head), Some(last), last_exists, behind, bound)
            == PopulationView::Nothing,
        head != last ==> {
            let r = population_of(Some(head), Some(last), last_exists, behind, bound);
            &&& r == PopulationView::MarkHead(head) <==> last_exists && behind == Some(0usize)
            &&& r == PopulationView::Fetch(last + "..HEAD"@, None) <==> last_exists && ((behind
                is Some && 0 < behind->0 <= bound) || (behind is None && usize::MAX <= bound))
            &&& r != PopulationView::Nothing
            &&& !last_exists || (behind is Some && behind->0 > bound) ==> r
                == PopulationView::Fetch("HEAD"@, Some(bound))
        },
{
}

/// Five fields make a commit exactly if the first is not blank and the third is a time; the author
/// and the subject are taken as they stand, and the body, where it is short enough, without the
/// white space around it.
pub proof fn lemma_commit_of_fields(f: Seq<Seq<char>>)
    ensures
        commit_in_fields(f) is Some <==> trimmed(f[0]).len() > 0 && crate::text::signed_64(f[2])
            is Some,
        commit_in_fields(f) matches Some(c) ==> {
            &&& c.hash == trimmed(f[0])
            &&& c.author == f[1]
            &&& Some(c.ts) == crate::text::signed_64(f[2])
            &&& c.subject == f[3]
            &&& crate::text::byte_len(trimmed(f[4])) <= MAX_BODY_BYTES ==> c.body == trimmed(f[4])
        },
        ({
            let c = shown_commit(f);
            &&& c.hash == trimmed(f[0])
            &&& c.author == f[1]
            &&& crate::text::signed_64(trimmed(f[2])) matches Some(ts) ==> c.ts == ts
            &&& crate::text::signed_64(trimmed(f[2])) is None ==> c.ts == 0
            &&& c.subject == f[3]
            &&& crate::text::byte_len(trimmed(f[4])) <= MAX_BODY_BYTES ==> c.body == trimmed(f[4])
        }),
{
}

/// A body that is kept is the whole of it, or as much of its start as takes no more bytes than the
/// limit, with an ellipsis behind it.
pub proof fn lemma_kept_body(body: Seq<char>)
    ensures
        crate::text::byte_len(body) <= MAX_BODY_BYTES ==> kept_body(body) == body,
        crate::text::byte_len(body) > MAX_BODY_BYTES ==> {
            let k = kept_body(body).len() - 1;
            &&& 0 <= k < body.len()
            &&& kept_body(body) == body.take(k).push('\u{2026}')
            &&& crate::text::byte_len(body.take(k)) <= MAX_BODY_BYTES
            &&& crate::text::byte_len(body.take(k + 1)) > MAX_BODY_BYTES
        },
{
    crate::text::lemma_prefix_within(body, MAX_BODY_BYTES as nat);
    if crate::text::byte_len(body) > MAX_BODY_BYTES {
        let p = crate::text::prefix_within(body, MAX_BODY_BYTES as nat);
        if p.len() == body.len() {
            assert(body.take(body.len() as int) =~= body);
        }
    }
}

/// The lines with text in them, in their order, without the white space around it.
pub proof fn lemma_nonblank(ls: Seq<Seq<char>>)
    ensures
        nonblank(ls) == ls.map_values(|l: Seq<char>| trimmed(l)).filter(|l: Seq<char>| l.len() > 0),
    decreases ls.len(),
{
    reveal(Seq::filter);
    let all = ls.map_values(|l: Seq<char>| trimmed(l));
    if ls.len() > 0 {
        lemma_nonblank(ls.drop_last());
        assert(all.drop_last() =~= ls.drop_last().map_values(|l: Seq<char>| trimmed(l)));
    } else {
        assert(all =~= Seq::<Seq<char>>::empty());
    }
}

/// Each block whose first line is not blank gives the files of one commit, in the order of the
/// blocks: the commit named on its first line, and the files named on the other lines.
pub proof fn lemma_changed_files(blocks: Seq<Seq<char>>)
    ensures
        ({
            let named = blocks.filter(
                |b: Seq<char>| text_lines(b).len() > 0 && trimmed(text_lines(b)[0]).len() > 0,
            );
            let r = changed_files_in(blocks);
            &&& r.len() == named.len()
            &&& forall|i: int|
                0 <= i < r.len() ==> (#[trigger] r[i]).0 == trimmed(text_lines(named[i])[0])
                    && r[i].1 == nonblank(text_lines(named[i]).skip(1))
        }),
    decreases blocks.len(),
{
    reveal(Seq::filter);
    if blocks.len() > 0 {
        lemma_changed_files(blocks.drop_last());
    }
}

/// A line of the file is attributed to the commit whose header came last before it: a header, then
/// lines that are neither a header nor a line of the file, then the line itself. Lines that were
/// not committed yet are attributed to none.
pub proof fn lemma_blame_lines(
    before: Seq<Seq<char>>,
    header: Seq<char>,
    between: Seq<Seq<char>>,
    line: Seq<char>,
)
    requires
        header.len() == 0 || header[0] != '\t',
        line.len() > 0 && line[0] == '\t',
        forall|i: int|
            0 <= i < between.len() ==> ((#[trigger] between[i]).len() == 0 || between[i][0] != '\t')
                && !blame_zero(between[i]) && blame_header(between[i]) is None,
    ensures
        ({
            let done = blame_read(before).0;
            let all = blame_read(before.push(header) + between.push(line)).0;
            &&& blame_zero(header) ==> all == done
            &&& !blame_zero(header) && blame_header(header) is Some ==> all == done.push(
                blame_header(header)->0,
            )
        }),
{
    let start = before.push(header);
    assert(start.drop_last() =~= before);
    lemma_blame_between(start, between);
    let all = start + between.push(line);
    assert(all.drop_last() =~= start + between);
    assert(all.last() == line);
}

proof fn lemma_blame_between(start: Seq<Seq<char>>, between: Seq<Seq<char>>)
    requires
        forall|i: int|
            0 <= i < between.len() ==> ((#[trigger] between[i]).len() == 0 || between[i][0] != '\t')
                && !blame_zero(between[i]) && blame_header(between[i]) is None,
    ensures
        blame_read(start + between) == blame_read(start),
    decreases between.len(),
{
    if between.len() == 0 {
        assert(start + between =~= start);
    } else {
        let front = between.drop_last();
        assert forall|i: int| 0 <= i < front.len() implies ((#[trigger] front[i]).len() == 0
            || front[i][0] != '\t') && !blame_zero(front[i]) && blame_header(front[i]) is None by {
            assert(front[i] == between[i]);
        }
        lemma_blame_between(start, front);
        assert((start + between).drop_last() =~= start + front);
        assert((start + between).last() == between[between.len() - 1]);
    }
}

/// A header names a commit by its full hash and, as its third word, the line; the hash of zeros
/// stands for what is not committed yet.
pub proof fn lemma_blame_header(sha: Seq<char>, first: Seq<char>, n: nat, rest: Seq<char>)
    requires
        is_full_sha(sha),
        first.len() > 0,
        forall|i: int| 0 <= i < first.len() ==> !crate::text::is_space(#[trigger] first[i]),
        n <= u32::MAX,
        rest.len() == 0 || rest[0] == ' ',
    ensures
        ({
            let header = sha.push(' ') + (first.push(' ') + (decimal(n) + rest));
            &&& blame_zero(header) <==> is_zero_sha(sha)
            &&& !is_zero_sha(sha) ==> blame_header(header) == Some((n, sha))
            &&& is_zero_sha(sha) ==> blame_header(header) is None
        }),
{
    let tail = decimal(n) + rest;
    let header = sha.push(' ') + (first.push(' ') + tail);
    assert forall|i: int| 0 <= i < sha.len() implies !crate::text::is_space(#[trigger] sha[i]) by {
        assert(crate::text::is_hex_digit(sha[i]));
    }
    crate::text::lemma_decimal_reads_back(n);
    assert forall|i: int| 0 <= i < decimal(n).len() implies !crate::text::is_space(
        #[trigger] decimal(n)[i],
    ) by {
        assert(crate::text::is_digit(decimal(n)[i]));
    }
    crate::text::lemma_words_of(sha, ' ', first.push(' ') + tail);
    crate::text::lemma_words_of(first, ' ', tail);
    if rest.len() == 0 {
        assert(tail =~= decimal(n));
        crate::text::lemma_words_of(decimal(n), ' ', rest);
    } else {
        crate::text::lemma_words_of(decimal(n), ' ', rest.skip(1));
        assert(tail =~= decimal(n).push(' ') + rest.skip(1));
    }
    let w = words(header);
    assert(w[0] == sha);
    assert(words(tail)[0] == decimal(n));
    assert(w == seq![sha] + (seq![first] + words(tail)));
    assert(w[2] == words(tail)[0]);
    crate::text::lemma_numbers_read(n, u32::MAX as nat);
}

/// A line belongs to the commit of the last attribution of that line; it belongs to none exactly if
/// it was never attributed.
pub proof fn lemma_blamed_lookup(blame: Seq<(nat, Seq<char>)>, line: nat)
    ensures
        forall|i: int|
            0 <= i < blame.len() && (#[trigger] blame[i]).0 == line && (forall|j: int|
                i < j < blame.len() ==> (#[trigger] blame[j]).0 != line) ==> blamed(blame, line)
                == Some(blame[i].1),
        (forall|i: int| 0 <= i < blame.len() ==> (#[trigger] blame[i]).0 != line) ==> blamed(
            blame,
            line,
        ) is None,
    decreases blame.len(),
{
    if blame.len() > 0 {
        let front = blame.drop_last();
        let n = blame.len() - 1;
        lemma_blamed_lookup(front, line);
        assert(blame[n] == blame.last());
        assert forall|i: int|
            0 <= i < blame.len() && (#[trigger] blame[i]).0 == line && (forall|j: int|
                i < j < blame.len() ==> (#[trigger] blame[j]).0 != line) implies blamed(blame, line)
            == Some(blame[i].1) by {
            if i < n {
                assert(blame[n].0 != line);
                assert(front[i] == blame[i]);
                assert forall|j: int| i < j < front.len() implies (#[trigger] front[j]).0
                    != line by {
                    assert(front[j] == blame[j]);
                }
            }
        }
        if forall|i: int| 0 <= i < blame.len() ==> (#[trigger] blame[i]).0 != line {
            assert(blame[n].0 != line);
            assert forall|j: int| 0 <= j < front.len() implies (#[trigger] front[j]).0 != line by {
                assert(front[j] == blame[j]);
            }
        }
    }
}

/// The commits behind a range of lines are exactly those that one of the lines belongs to, each
/// once; what the first lines of the range give comes first.
pub proof fn lemma_blamed_between(blame: Seq<(nat, Seq<char>)>, start: int, end: int)
    requires
        0 <= start,
    ensures
        blamed_between(blame, start, end).no_duplicates(),
        forall|sha: Seq<char>| #[trigger]
            blamed_between(blame, start, end).contains(sha) <==> exists|l: nat|
                start <= l < end && #[trigger] blamed(blame, l) == Some(sha),
        blamed_between(blame, start, end).is_prefix_of(blamed_between(blame, start, end + 1)),
    decreases end - start,
{
    let r = blamed_between(blame, start, end);
    if end > start {
        lemma_blamed_between(blame, start, end - 1);
        let q = blamed_between(blame, start, end - 1);
        let b = blamed(blame, (end - 1) as nat);
        assert forall|sha: Seq<char>| #[trigger] r.contains(sha) <==> exists|l: nat|
            start <= l < end && #[trigger] blamed(blame, l) == Some(sha) by {
            if r.contains(sha) {
                let k = choose|k: int| 0 <= k < r.len() && r[k] == sha;
                if k < q.len() {
                    assert(q[k] == sha);
                    assert(q.contains(sha));
                    let l = choose|l: nat|
                        start <= l < end - 1 && #[trigger] blamed(blame, l) == Some(sha);
                    assert(blamed(blame, l) == Some(sha));
                } else {
                    assert(b == Some(sha));
                }
            }
            if exists|l: nat| start <= l < end && #[trigger] blamed(blame, l) == Some(sha) {
                let l = choose|l: nat| start <= l < end && #[trigger] blamed(blame, l) == Some(sha);
                if l < end - 1 {
                    assert(q.contains(sha));
                }
                if q.contains(sha) {
                    let k = choose|k: int| 0 <= k < q.len() && q[k] == sha;
                    assert(r[k] == sha);
                } else {
                    assert(r[q.len() as int] == sha);
                }
            }
        }
        if b is Some && !q.contains(b->0) {
            assert forall|i: int, j: int| 0 <= i < r.len() && 0 <= j < r.len() && i != j implies r[i]
                != r[j] by {
                if i < q.len() && j < q.len() {
                } else if i < q.len() {
                    assert(q.contains(q[i]));
                } else {
                    assert(q.contains(q[j]));
                }
            }
        }
    }
}

/// The age of a commit is told in whole seconds, minutes, hours, days, months of thirty days or
/// years of 365 days, in the largest unit of which at least one has passed; days are counted up to
/// thirty and months up to a year.
pub proof fn lemma_age_text(seconds: nat, n: nat)
    ensures
        seconds == n && n < 60 ==> age_text(seconds) == decimal(n) + "s ago"@,
        60 * n <= seconds < 60 * (n + 1) && 1 <= n < 60 ==> age_text(seconds) == decimal(n)
            + "m ago"@,
        3_600 * n <= seconds < 3_600 * (n + 1) && 1 <= n < 24 ==> age_text(seconds) == decimal(n)
            + "h ago"@,
        86_400 * n <= seconds < 86_400 * (n + 1) && 1 <= n < 30 ==> age_text(seconds) == decimal(n)
            + "d ago"@,
        2_592_000 * n <= seconds < 2_592_000 * (n + 1) && n >= 1 && seconds < 31_536_000
            ==> age_text(seconds) == decimal(n) + "mo ago"@,
        31_536_000 * n <= seconds < 31_536_000 * (n + 1) && n >= 1 ==> age_text(seconds)
            == decimal(n) + "y ago"@,
{
}

/// A date is read exactly where a text is made of four digits, two and two, with dashes between,
/// for a month of the year and a day of the month; it stands for the first second of that day.
pub proof fn lemma_utc_date(y: Seq<char>, m: Seq<char>, d: Seq<char>)
    requires
        y.len() == 4,
        m.len() == 2,
        d.len() == 2,
    ensures
        ({
            let s = y + seq!['-'] + m + seq!['-'] + d;
            let year = crate::text::digits_value(y) as int;
            let month = crate::text::digits_value(m) as int;
            let day = crate::text::digits_value(d) as int;
            &&& utc_date(s) is Some ==> crate::text::all_digits(y) && crate::text::all_digits(m)
                && crate::text::all_digits(d) && 1 <= month <= 12 && 1 <= day <= 31 && utc_date(s)
                == Some(days_from_civil(year, month, day) * 86_400)
            &&& crate::text::all_digits(y) && crate::text::all_digits(m) && crate::text::all_digits(
                d,
            ) && year <= 9_999 && 1 <= month <= 12 && 1 <= day <= 31 ==> utc_date(s) is Some
        }),
{
    let s = y + seq!['-'] + m + seq!['-'] + d;
    assert(s.subrange(0, 4) =~= y);
    assert(s.subrange(5, 7) =~= m);
    assert(s.subrange(8, 10) =~= d);
    assert(s[4] == '-' && s[7] == '-');
}

/// A setting counts exactly if it is a whole number above zero, white space around it aside; else
/// the default does.
pub proof fn lemma_positive_setting(n: nat, default: nat)
    ensures
        0 < n <= usize::MAX ==> positive_setting(Some(decimal(n)), default) == n,
        n == 0 || n > usize::MAX ==> positive_setting(Some(decimal(n)), default) == default,
        positive_setting(None, default) == default,
{
    crate::text::lemma_decimal_reads_back(n);
    let s = decimal(n);
    assert(crate::text::is_digit(s[0]));
    assert(crate::text::is_digit(s[s.len() - 1]));
    let none = Seq::<char>::empty();
    crate::text::lemma_trim_takes_space(none, s, none);
    assert(none + s + none =~= s);
    crate::text::lemma_numbers_read(n, usize::MAX as nat);
}

/// What is bound to a query follows its clauses: the time, the author, the file and the message, as
/// far as they are asked for, and the limit last.
pub proof fn lemma_filter_bound(f: HistoryFilter)
    ensures
        ({
            let b = filter_bound(f);
            let since = if f.since_ts is Some { 1int } else { 0 };
            let author = if f.author is Some { 1int } else { 0 };
            let file = if f.file is Some { 1int } else { 0 };
            let message = if f.message_query is Some { 1int } else { 0 };
            &&& b.len() == since + author + file + message + 1
            &&& f.since_ts is Some ==> b[0] == SqlValueView::Integer(f.since_ts->0)
            &&& f.author is Some ==> b[since] == SqlValueView::Text(like_pattern(f.author->0@))
            &&& f.file is Some ==> b[since + author] == SqlValueView::Text(f.file->0@)
            &&& f.message_query is Some ==> b[since + author + file] == SqlValueView::Text(
                like_pattern(f.message_query->0@),
            )
            &&& f.limit > 0 ==> b.last() == SqlValueView::Integer(f.limit as i64)
            &&& f.limit == 0 ==> b.last() == SqlValueView::Integer(20)
        }),
{
}

/// What a point in time is read as: nothing where it is blank or starts with a dash, a time where
/// it is a date, and else a revision, never both. What is handed to git as a revision cannot be
/// taken for an option, and names a commit.
pub proof fn lemma_since_view(since: Seq<char>)
    ensures
        ({
            let s = trimmed(since);
            let (ts, rev) = since_view(since);
            &&& s.len() == 0 || s[0] == '-' ==> ts is None && rev is None
            &&& s.len() > 0 && s[0] != '-' ==> ts == utc_date(s)
            &&& rev is Some <==> s.len() > 0 && s[0] != '-' && utc_date(s) is None
            &&& rev matches Some(r) ==> r == s + "^{commit}"@ && r[0] != '-'
            &&& ts is Some ==> rev is None
        }),
{
}

/// A hash is accepted exactly if it has seven to forty characters, all of them digits of a
/// hexadecimal number.
pub proof fn lemma_is_sha(s: Seq<char>)
    ensures
        is_sha(s) <==> 7 <= s.len() <= 40 && forall|i: int|
            0 <= i < s.len() ==> '0' <= (#[trigger] s[i]) <= '9' || 'a' <= s[i] <= 'f' || 'A'
                <= s[i] <= 'F',
        is_full_sha(s) <==> is_sha(s) && s.len() == 40,
{
    if is_sha(s) {
        assert forall|i: int| 0 <= i < s.len() implies '0' <= (#[trigger] s[i]) <= '9' || 'a'
            <= s[i] <= 'f' || 'A' <= s[i] <= 'F' by {
            assert(crate::text::is_hex_digit(s[i]));
        }
    }
}

/// The first line of a message is what stands before its first line end.
pub proof fn lemma_first_line(line: Seq<char>, rest: Seq<char>)
    requires
        !line.contains('\n'),
        line.len() == 0 || line.last() != '\r',
    ensures
        first_line(line.push('\n') + rest) == line,
        first_line(line) == line,
{
    crate::text::lemma_lines_of(line, rest);
    if line.len() == 0 {
        assert(line =~= Seq::<char>::empty());
    }
}

/// The time that has passed since a commit; a commit of the future has no age.
pub proof fn lemma_seconds_since(ts: int, now: int)
    ensures
        now >= ts ==> ts + seconds_since(ts, now) == now,
        now < ts ==> seconds_since(ts, now) == 0,
{
}

/// A limit on the number of commits is handed to git as a number, and no limit as nothing.
pub proof fn lemma_count_args(n: usize)
    ensures
        count_args(None).len() == 0,
        count_args(Some(n)).len() == 2,
        count_args(Some(n))[0] == "-n"@,
        crate::text::digits_value(count_args(Some(n))[1]) == n,
{
    crate::text::lemma_decimal_reads_back(n as nat);
}

proof fn lemma_marks_in_base()
    ensures
        question_marks("SELECT DISTINCT c.hash, c.author, c.ts, c.message FROM commits c"@) == 0,
{
    reveal_strlit("SELECT DISTINCT c.hash, c.author, c.ts, c.message FROM commits c");
    let s = seq![
        'S', 'E', 'L', 'E', 'C', 'T', ' ', 'D', 'I', 'S', 'T', 'I', 'N', 'C', 'T', ' ', 'c', '.',
        'h', 'a', 's', 'h', ',', ' ', 'c', '.', 'a', 'u', 't', 'h', 'o', 'r', ',', ' ', 'c', '.',
        't', 's', ',', ' ', 'c', '.', 'm', 'e', 's', 's', 'a', 'g', 'e', ' ', 'F', 'R', 'O', 'M',
        ' ', 'c', 'o', 'm', 'm', 'i', 't', 's', ' ', 'c',
    ];
    assert("SELECT DISTINCT c.hash, c.author, c.ts, c.message FROM commits c"@ =~= s);
    lemma_no_mark(s);
}

proof fn lemma_marks_in_join()
    ensures
        question_marks(" JOIN file_commits f ON f.hash = c.hash"@) == 0,
{
    reveal_strlit(" JOIN file_commits f ON f.hash = c.hash");
    let s = seq![
        ' ', 'J', 'O', 'I', 'N', ' ', 'f', 'i', 'l', 'e', '_', 'c', 'o', 'm', 'm', 'i', 't', 's',
        ' ', 'f', ' ', 'O', 'N', ' ', 'f', '.', 'h', 'a', 's', 'h', ' ', '=', ' ', 'c', '.', 'h',
        'a', 's', 'h',
    ];
    assert(" JOIN file_commits f ON f.hash = c.hash"@ =~= s);
    lemma_no_mark(s);
}

proof fn lemma_marks_in_where()
    ensures
        question_marks(" WHERE 1=1"@) == 0,
{
    reveal_strlit(" WHERE 1=1");
    let s = seq![' ', 'W', 'H', 'E', 'R', 'E', ' ', '1', '=', '1'];
    assert(" WHERE 1=1"@ =~= s);
    lemma_no_mark(s);
}

proof fn lemma_marks_in_since()
    ensures
        question_marks(" AND c.ts > ?"@) == 1,
{
    reveal_strlit(" AND c.ts > ?");
    let s = seq![' ', 'A', 'N', 'D', ' ', 'c', '.', 't', 's', ' ', '>', ' ', '?'];
    assert(" AND c.ts > ?"@ =~= s);
    lemma_one_mark_last(s);
}

proof fn lemma_marks_in_author()
    ensures
        question_marks(" AND c.author LIKE ?"@) == 1,
{
    reveal_strlit(" AND c.author LIKE ?");
    let s = seq![
        ' ', 'A', 'N', 'D', ' ', 'c', '.', 'a', 'u', 't', 'h', 'o', 'r', ' ', 'L', 'I', 'K', 'E',
        ' ', '?',
    ];
    assert(" AND c.author LIKE ?"@ =~= s);
    lemma_one_mark_last(s);
}

proof fn lemma_marks_in_path()
    ensures
        question_marks(" AND f.path = ?"@) == 1,
{
    reveal_strlit(" AND f.path = ?");
    let s = seq![' ', 'A', 'N', 'D', ' ', 'f', '.', 'p', 'a', 't', 'h', ' ', '=', ' ', '?'];
    assert(" AND f.path = ?"@ =~= s);
    lemma_one_mark_last(s);
}

proof fn lemma_marks_in_message()
    ensures
        question_marks(" AND c.message LIKE ?"@) == 1,
{
    reveal_strlit(" AND c.message LIKE ?");
    let s = seq![
        ' ', 'A', 'N', 'D', ' ', 'c', '.', 'm', 'e', 's', 's', 'a', 'g', 'e', ' ', 'L', 'I', 'K',
        'E', ' ', '?',
    ];
    assert(" AND c.message LIKE ?"@ =~= s);
    lemma_one_mark_last(s);
}

proof fn lemma_marks_in_limit()
    ensures
        question_marks(" ORDER BY c.ts DESC, c.rowid DESC LIMIT ?"@) == 1,
{
    reveal_strlit(" ORDER BY c.ts DESC, c.rowid DESC LIMIT ?");
    let s = seq![
        ' ', 'O', 'R', 'D', 'E', 'R', ' ', 'B', 'Y', ' ', 'c', '.', 't', 's', ' ', 'D', 'E', 'S',
        'C', ',', ' ', 'c', '.', 'r', 'o', 'w', 'i', 'd', ' ', 'D', 'E', 'S', 'C', ' ', 'L', 'I',
        'M', 'I', 'T', ' ', '?',
    ];
    assert(" ORDER BY c.ts DESC, c.rowid DESC LIMIT ?"@ =~= s);
    lemma_one_mark_last(s);
}

/// A query has as many places for values as values are bound to it.
pub proof fn lemma_places_for_values(f: HistoryFilter)
    ensures
        question_marks(filter_sql(f)) == filter_bound(f).len(),
{
    lemma_marks_in_base();
    lemma_marks_in_join();
    lemma_marks_in_where();
    lemma_marks_in_since();
    lemma_marks_in_author();
    lemma_marks_in_path();
    lemma_marks_in_message();
    lemma_marks_in_limit();
    let join = clause_if(f.file is Some, " JOIN file_commits f ON f.hash = c.hash"@);
    let since = clause_if(f.since_ts is Some, " AND c.ts > ?"@);
    let author = clause_if(f.author is Some, " AND c.author LIKE ?"@);
    let path = clause_if(f.file is Some, " AND f.path = ?"@);
    let message = clause_if(f.message_query is Some, " AND c.message LIKE ?"@);
    let a = "SELECT DISTINCT c.hash, c.author, c.ts, c.message FROM commits c"@;
    let w = " WHERE 1=1"@;
    let l = " ORDER BY c.ts DESC, c.rowid DESC LIMIT ?"@;
    lemma_marks_add(a, join);
    lemma_marks_add(a + join, w);
    lemma_marks_add(a + join + w, since);
    lemma_marks_add(a + join + w + since, author);
    lemma_marks_add(a + join + w + since + author, path);
    lemma_marks_add(a + join + w + since + author + path, message);
    lemma_marks_add(a + join + w + since + author + path + message, l);
    assert(question_marks(Seq::<char>::empty()) == 0);
}

/// What is shown of a commit, given the five fields that git printed of it, its files, its
/// statistics and its patch.
pub open spec fn detail_of(
    f: Seq<Seq<char>>,
    files: Seq<Seq<char>>,
    stat: Seq<char>,
    patch: Seq<char>,
    patch_budget: nat,
) -> CommitDetailView {
    let c = shown_commit(f);
    CommitDetailView {
        hash: c.hash,
        author: c.author,
        ts: c.ts,
        subject: c.subject,
        body: c.body,
        files,
        stat: trimmed(stat),
        patch: kept(patch, patch_budget),
        patch_truncated: crate::text::byte_len(patch) > patch_budget,
    }
}

/// What is shown of a commit is what git printed of it: its hash, author and subject from the
/// first, second and fourth field, all of its files, and of its patch as much as the budget allows;
/// a patch that is cut is said to be.
pub proof fn lemma_commit_detail(
    f: Seq<Seq<char>>,
    files: Seq<Seq<char>>,
    stat: Seq<char>,
    patch: Seq<char>,
    patch_budget: nat,
)
    ensures
        ({
            let d = detail_of(f, files, stat, patch, patch_budget);
            &&& d.hash == trimmed(f[0])
            &&& d.author == f[1]
            &&& crate::text::signed_64(trimmed(f[2])) matches Some(ts) ==> d.ts == ts
            &&& d.subject == f[3]
            &&& crate::text::byte_len(trimmed(f[4])) <= MAX_BODY_BYTES ==> d.body == trimmed(f[4])
            &&& d.files == files
            &&& d.stat == trimmed(stat)
            &&& d.patch_truncated <==> crate::text::byte_len(patch) > patch_budget
            &&& !d.patch_truncated ==> d.patch == crate::text::trimmed_end(patch)
            &&& d.patch_truncated ==> {
                &&& d.patch.len() < patch.len()
                &&& d.patch == patch.take(d.patch.len() as int)
                &&& crate::text::byte_len(d.patch) <= patch_budget
                &&& crate::text::byte_len(patch.take(d.patch.len() as int + 1)) > patch_budget
            }
        }),
{
    crate::text::lemma_prefix_within(patch, patch_budget);
    if crate::text::byte_len(patch) > patch_budget {
        let k = crate::text::prefix_within(patch, patch_budget);
        if k.len() == patch.len() {
            assert(patch.take(patch.len() as int) =~= patch);
        }
    }
}

/// The commits behind the lines of a chunk, the first and the last one counted.
pub open spec fn chunk_commits(blame: Seq<(nat, Seq<char>)>, start: int, end: int) -> Seq<
    Seq<char>,
> {
    blamed_between(blame, start, end + 1)
}

/// The commits of a chunk are exactly those that one of its lines belongs to, its first and its last
/// line among them, each once.
pub proof fn lemma_chunk_commits(blame: Seq<(nat, Seq<char>)>, start: int, end: int)
    requires
        0 <= start,
    ensures
        chunk_commits(blame, start, end).no_duplicates(),
        forall|sha: Seq<char>| #[trigger]
            chunk_commits(blame, start, end).contains(sha) <==> exists|l: nat|
                start <= l <= end && #[trigger] blamed(blame, l) == Some(sha),
{
    lemma_blamed_between(blame, start, end + 1);
    assert forall|sha: Seq<char>| #[trigger] chunk_commits(blame, start, end).contains(sha)
        <==> exists|l: nat| start <= l <= end && #[trigger] blamed(blame, l) == Some(sha) by {
        if exists|l: nat| start <= l <= end && #[trigger] blamed(blame, l) == Some(sha) {
            let l = choose|l: nat| start <= l <= end && #[trigger] blamed(blame, l) == Some(sha);
            assert(start <= l < end + 1 && blamed(blame, l) == Some(sha));
        }
        if chunk_commits(blame, start, end).contains(sha) {
            let l = choose|l: nat|
                start <= l < end + 1 && #[trigger] blamed(blame, l) == Some(sha);
            assert(start <= l <= end && blamed(blame, l) == Some(sha));
        }
    }
}

/// The files that are blamed: the first of those that have changed, if blaming is switched on.
pub open spec fn blamed_files(setting: Option<Seq<char>>, changed: Seq<Seq<char>>) -> Seq<
    Seq<char>,
> {
    if setting == Some("1"@) {
        crate::index::architecture::top_of(changed, MAX_BLAME_FILES as nat)
    } else {
        Seq::empty()
    }
}

/// No file is blamed unless blaming is switched on; and then the first ones of those that have
/// changed, all of them while there are no more than the limit.
pub proof fn lemma_blamed_files(setting: Option<Seq<char>>, changed: Seq<Seq<char>>)
    ensures
        ({
            let r = blamed_files(setting, changed);
            &&& setting is None ==> r.len() == 0
            &&& setting is Some && setting->0 != "1"@ ==> r.len() == 0
            &&& setting == Some("1"@) ==> {
                &&& r.len() <= MAX_BLAME_FILES
                &&& r.len() == changed.len() || r.len() == MAX_BLAME_FILES
                &&& forall|i: int| 0 <= i < r.len() ==> #[trigger] r[i] == changed[i]
            }
        }),
{
}

/// Commits are looked for by their messages alone.
pub open spec fn is_message_search(f: HistoryFilter) -> bool {
    f.message_query is Some && f.since_ts is None && f.author is None && f.file is None
}

/// A search by messages alone leaves nothing out that is asked for: it is made only where neither a
/// time nor an author nor a file is, and always where only a message is.
pub proof fn lemma_message_search(f: HistoryFilter)
    ensures
        is_message_search(f) ==> filter_bound(f).len() == 2,
        f.since_ts is Some || f.author is Some || f.file is Some ==> !is_message_search(f),
        f.message_query is Some && f.since_ts is None && f.author is None && f.file is None
            ==> is_message_search(f),
        f.message_query is None ==> !is_message_search(f),
{
}

/// What is shown of a stored commit.
pub open spec fn info_of(hash: Seq<char>, author: Seq<char>, ts: int, message: Seq<char>) -> CommitInfoView {
    CommitInfoView { hash, author, ts, subject: first_line(message) }
}

/// What is stored of a commit is what is shown of it: its own hash, author and time, and the subject
/// that it was stored with, whether or not it has a body.
pub proof fn lemma_stored_commit_shown(c: RawCommitView, changed: Seq<(Seq<char>, Seq<Seq<char>>)>)
    requires
        !c.subject.contains('\n'),
        c.subject.len() == 0 || c.subject.last() != '\r',
    ensures
        ({
            let r = row_of(c, changed);
            let i = info_of(r.hash, r.author, r.ts, r.message);
            &&& i.hash == c.hash
            &&& i.author == c.author
            &&& i.ts == c.ts
            &&& i.subject == c.subject
        }),
{
    lemma_message_of(c);
    lemma_first_line(c.subject, seq!['\n'] + c.body);
    assert(c.subject + seq!['\n', '\n'] + c.body =~= c.subject.push('\n') + (seq!['\n'] + c.body));
}

/// A run that has nothing to fetch records no commit and no file: it does nothing, or only notes
/// that `HEAD` has been processed.
pub proof fn lemma_population_without_fetch(
    t: HistoryTables,
    head: Option<Seq<char>>,
    git: GitAnswers,
    bound: nat,
)
    requires
        !(population_of(head, t.last_sha, git.last_exists, git.behind, bound) is Fetch),
    ensures
        ({
            let u = populated(t, head, git, bound);
            &&& u.commits == t.commits
            &&& u.files == t.files
            &&& u.last_sha == t.last_sha || u.last_sha == head
            &&& head matches Some(h) ==> u.last_sha == Some(h)
            &&& head is None ==> u == t
        }),
{
}

/// A hash stands for what is not committed yet exactly if each of its characters is a zero.
pub proof fn lemma_zero_sha(c: char, s: Seq<char>)
    ensures
        is_zero_sha(seq![c] + s) <==> c == '0' && is_zero_sha(s),
        is_zero_sha(s.push(c)) <==> c == '0' && is_zero_sha(s),
        is_zero_sha(Seq::empty()),
{
    let front = seq![c] + s;
    let back = s.push(c);
    if is_zero_sha(front) {
        assert(front[0] == '0');
        assert forall|i: int| 0 <= i < s.len() implies #[trigger] s[i] == '0' by {
            assert(front[i + 1] == '0');
        }
    }
    if is_zero_sha(back) {
        assert(back[s.len() as int] == '0');
        assert forall|i: int| 0 <= i < s.len() implies #[trigger] s[i] == '0' by {
            assert(back[i] == '0');
        }
    }
}

} // verus!
