//! The FTP endpoint: LIST parsing, date parsing, and the path-aware
//! command sequencing that the driver replays against the control
//! connection.

use chrono::Datelike;
use vstd::prelude::*;
use vstd::string::*;

use crate::strutil::{
    seq_views, spec_components, spec_join, spec_join_path, spec_parse_u32, spec_rsplit_once,
    spec_split_once, spec_split_ws, join_path, parse_u32_digits, path_components,
    rsplit_once_char, split_once_char, split_whitespace_vec, str_eq, join_from,
};

verus! {

/// An FTP endpoint: credentials, host, and the remote root directory
/// every operation starts from.
#[derive(Debug)]
pub struct FtpLocation {
    pub user: String,
    pub pass: String,
    pub host: String,
    pub path: String,
}

impl FtpLocation {
    pub fn new(user: &str, pass: &str, host: &str, path: &str) -> (r: Self)
        ensures
            r.user@ == user@,
            r.pass@ == pass@,
            r.host@ == host@,
            r.path@ == path@,
    {
        FtpLocation {
            user: user.to_owned(),
            pass: pass.to_owned(),
            host: host.to_owned(),
            path: path.to_owned(),
        }
    }
}

/// What splitting a path at its last `/` yields: the directory part and
/// the file name.  A path without `/` is all file name.
pub open spec fn spec_split_path_dir_file(path: Seq<char>) -> (Seq<char>, Seq<char>) {
    match spec_rsplit_once(path, '/') {
        Some((dir, file)) => (dir, file),
        None => (Seq::empty(), path),
    }
}

/// Splits a path into directory part and file name at the last `/`.
pub fn split_path_dir_file(path: &str) -> (r: (String, String))
    ensures
        (r.0@, r.1@) == spec_split_path_dir_file(path@),
{
    match rsplit_once_char(path, '/') {
        Some(p) => p,
        None => (String::new(), path.to_owned()),
    }
}

/// The number (1 to 12) of a three-letter English month abbreviation.
pub open spec fn spec_month_num(s: Seq<char>) -> Option<u32> {
    if s == seq!['J', 'a', 'n'] {
        Some(1u32)
    } else if s == seq!['F', 'e', 'b'] {
        Some(2u32)
    } else if s == seq!['M', 'a', 'r'] {
        Some(3u32)
    } else if s == seq!['A', 'p', 'r'] {
        Some(4u32)
    } else if s == seq!['M', 'a', 'y'] {
        Some(5u32)
    } else if s == seq!['J', 'u', 'n'] {
        Some(6u32)
    } else if s == seq!['J', 'u', 'l'] {
        Some(7u32)
    } else if s == seq!['A', 'u', 'g'] {
        Some(8u32)
    } else if s == seq!['S', 'e', 'p'] {
        Some(9u32)
    } else if s == seq!['O', 'c', 't'] {
        Some(10u32)
    } else if s == seq!['N', 'o', 'v'] {
        Some(11u32)
    } else if s == seq!['D', 'e', 'c'] {
        Some(12u32)
    } else {
        None
    }
}

/// Parses a three-letter month abbreviation.
fn parse_month(s: &str) -> (r: Option<u32>)
    ensures
        r == spec_month_num(s@),
{
    proof {
        reveal_strlit("Jan");
        reveal_strlit("Feb");
        reveal_strlit("Mar");
        reveal_strlit("Apr");
        reveal_strlit("May");
        reveal_strlit("Jun");
        reveal_strlit("Jul");
        reveal_strlit("Aug");
        reveal_strlit("Sep");
        reveal_strlit("Oct");
        reveal_strlit("Nov");
        reveal_strlit("Dec");
        assert("Jan"@ =~= seq!['J', 'a', 'n']);
        assert("Feb"@ =~= seq!['F', 'e', 'b']);
        assert("Mar"@ =~= seq!['M', 'a', 'r']);
        assert("Apr"@ =~= seq!['A', 'p', 'r']);
        assert("May"@ =~= seq!['M', 'a', 'y']);
        assert("Jun"@ =~= seq!['J', 'u', 'n']);
        assert("Jul"@ =~= seq!['J', 'u', 'l']);
        assert("Aug"@ =~= seq!['A', 'u', 'g']);
        assert("Sep"@ =~= seq!['S', 'e', 'p']);
        assert("Oct"@ =~= seq!['O', 'c', 't']);
        assert("Nov"@ =~= seq!['N', 'o', 'v']);
        assert("Dec"@ =~= seq!['D', 'e', 'c']);
    }
    if str_eq(s, "Jan") {
        Some(1)
    } else if str_eq(s, "Feb") {
        Some(2)
    } else if str_eq(s, "Mar") {
        Some(3)
    } else if str_eq(s, "Apr") {
        Some(4)
    } else if str_eq(s, "May") {
        Some(5)
    } else if str_eq(s, "Jun") {
        Some(6)
    } else if str_eq(s, "Jul") {
        Some(7)
    } else if str_eq(s, "Aug") {
        Some(8)
    } else if str_eq(s, "Sep") {
        Some(9)
    } else if str_eq(s, "Oct") {
        Some(10)
    } else if str_eq(s, "Nov") {
        Some(11)
    } else if str_eq(s, "Dec") {
        Some(12)
    } else {
        None
    }
}

/// Whether `y` is a leap year of the Gregorian calendar.
pub open spec fn is_leap_year(y: int) -> bool {
    y % 4 == 0 && (y % 100 != 0 || y % 400 == 0)
}

/// The number of days of month `m` in year `y`.
pub open spec fn days_in_month(y: int, m: int) -> int {
    if m == 2 {
        if is_leap_year(y) {
            29
        } else {
            28
        }
    } else if m == 4 || m == 6 || m == 9 || m == 11 {
        30
    } else {
        31
    }
}

/// The number of days of year `y` before month `m` begins.
pub open spec fn days_before_month(y: int, m: int) -> int {
    (if m == 1 {
        0int
    } else if m == 2 {
        31
    } else if m == 3 {
        59
    } else if m == 4 {
        90
    } else if m == 5 {
        120
    } else if m == 6 {
        151
    } else if m == 7 {
        181
    } else if m == 8 {
        212
    } else if m == 9 {
        243
    } else if m == 10 {
        273
    } else if m == 11 {
        304
    } else {
        334
    }) + if m > 2 && is_leap_year(y) {
        1int
    } else {
        0int
    }
}

/// The number of leap years from 1970 up to, excluding, year `y`.
pub open spec fn leap_days_before(y: int) -> int {
    (y - 1) / 4 - (y - 1) / 100 + (y - 1) / 400 - 477
}

/// The number of days from 1970-01-01 to the day `y-m-d`.
pub open spec fn days_from_epoch(y: int, m: int, d: int) -> int {
    365 * (y - 1970) + leap_days_before(y) + days_before_month(y, m) + (d - 1)
}

/// Seconds from the epoch to `y-m-d hh:mm` UTC.
pub open spec fn epoch_secs(y: int, m: int, d: int, hh: int, mm: int) -> int {
    days_from_epoch(y, m, d) * 86400 + hh * 3600 + mm * 60
}

/// [`epoch_secs`] clamped below at the epoch.
pub open spec fn epoch_secs_u64(y: int, m: int, d: int, hh: int, mm: int) -> u64 {
    if epoch_secs(y, m, d, hh, mm) < 0 {
        0u64
    } else {
        epoch_secs(y, m, d, hh, mm) as u64
    }
}

/// Seconds since the epoch of `y-m-d hh:mm` UTC.
fn ymd_hm_to_secs(y: i32, m: u32, d: u32, hh: u32, mm: u32) -> (r: u64)
    requires
        1970 <= y <= 9999,
        1 <= m <= 12,
        1 <= d <= 31,
        hh < 24,
        mm < 60,
    ensures
        r == epoch_secs_u64(y as int, m as int, d as int, hh as int, mm as int),
{
    let yy: u64 = (y as u64) - 1;
    let a: u64 = yy / 4;
    let b: u64 = yy / 100;
    let cc: u64 = yy / 400;
    let dbm: u64 = days_before_month_exec(y, m);
    let pos: u64 = 365 * ((y as u64) - 1970) + a + cc + dbm + ((d as u64) - 1);
    let neg: u64 = b + 477;
    if pos < neg {
        proof {
            assert(epoch_secs(y as int, m as int, d as int, hh as int, mm as int) < 0);
        }
        0
    } else {
        let days: u64 = pos - neg;
        let secs: u64 = days * 86400 + (hh as u64) * 3600 + (mm as u64) * 60;
        proof {
            assert(epoch_secs(y as int, m as int, d as int, hh as int, mm as int) >= 0);
        }
        secs
    }
}

/// The day count of [`days_before_month`].
fn days_before_month_exec(y: i32, m: u32) -> (r: u64)
    requires
        1 <= m <= 12,
    ensures
        r == days_before_month(y as int, m as int),
{
    let base: u64 = if m == 1 {
        0
    } else if m == 2 {
        31
    } else if m == 3 {
        59
    } else if m == 4 {
        90
    } else if m == 5 {
        120
    } else if m == 6 {
        151
    } else if m == 7 {
        181
    } else if m == 8 {
        212
    } else if m == 9 {
        243
    } else if m == 10 {
        273
    } else if m == 11 {
        304
    } else {
        334
    };
    let leap: bool = y % 4 == 0 && (y % 100 != 0 || y % 400 == 0);
    if m > 2 && leap {
        base + 1
    } else {
        base
    }
}

/// What parsing `HH:MM` yields: hour and minute, each one or two
/// digits, hour below 24, minute below 60.
pub open spec fn spec_parse_hhmm(s: Seq<char>) -> Option<(u32, u32)> {
    match spec_split_once(s, ':') {
        None => None,
        Some((hs, ms)) => if 1 <= hs.len() <= 2 && 1 <= ms.len() <= 2 {
            match (spec_parse_u32(hs), spec_parse_u32(ms)) {
                (Some(h), Some(mi)) => if h < 24 && mi < 60 {
                    Some((h, mi))
                } else {
                    None
                },
                _ => None,
            }
        } else {
            None
        },
    }
}

/// Parses a `HH:MM` time of day.
fn parse_hhmm(s: &str) -> (r: Option<(u32, u32)>)
    ensures
        r == spec_parse_hhmm(s@),
{
    match split_once_char(s, ':') {
        None => None,
        Some((hs, ms)) => {
            let hl = hs.as_str().unicode_len();
            let ml = ms.as_str().unicode_len();
            if 1 <= hl && hl <= 2 && 1 <= ml && ml <= 2 {
                match (parse_u32_digits(hs.as_str()), parse_u32_digits(ms.as_str())) {
                    (Some(h), Some(mi)) => if h < 24 && mi < 60 {
                        Some((h, mi))
                    } else {
                        None
                    },
                    _ => None,
                }
            } else {
                None
            }
        },
    }
}

/// What parsing the three LIST date fields (month name, day, `HH:MM`)
/// yields under the assumption that the year is `year`: seconds since
/// the epoch, or nothing when a field is malformed, the day does not
/// exist in that month, or the year lies outside 1970 to 9999.
pub open spec fn spec_parse_ftp_date(parts: Seq<Seq<char>>, year: int) -> Option<u64> {
    if parts.len() != 3 {
        None
    } else {
        match spec_month_num(parts[0]) {
            None => None,
            Some(m) => match spec_parse_u32(parts[1]) {
                None => None,
                Some(d) => match spec_parse_hhmm(parts[2]) {
                    None => None,
                    Some((hh, mm)) => if 1970 <= year <= 9999 && 1 <= d && d
                        <= days_in_month(year, m as int) {
                        Some(epoch_secs_u64(year, m as int, d as int, hh as int, mm as int))
                    } else {
                        None
                    },
                },
            },
        }
    }
}

/// Parses the month, day and time fields of a LIST line, taking the
/// year to be `year`.
pub fn parse_ftp_date(date_parts: &Vec<String>, year: i32) -> (r: Option<u64>)
    ensures
        r == spec_parse_ftp_date(seq_views(date_parts@), year as int),
{
    if date_parts.len() != 3 {
        return None;
    }
    let m = match parse_month(date_parts[0].as_str()) {
        Some(m) => m,
        None => {
            return None;
        },
    };
    let d = match parse_u32_digits(date_parts[1].as_str()) {
        Some(d) => d,
        None => {
            return None;
        },
    };
    let (hh, mm) = match parse_hhmm(date_parts[2].as_str()) {
        Some(t) => t,
        None => {
            return None;
        },
    };
    let dim = days_in_month_exec(year, m);
    if 1970 <= year && year <= 9999 && 1 <= d && (d as u64) <= dim {
        Some(ymd_hm_to_secs(year, m, d, hh, mm))
    } else {
        None
    }
}

/// The day count of [`days_in_month`].
fn days_in_month_exec(y: i32, m: u32) -> (r: u64)
    requires
        1 <= m <= 12,
    ensures
        r == days_in_month(y as int, m as int),
{
    if m == 2 {
        let leap: bool = y % 4 == 0 && (y % 100 != 0 || y % 400 == 0);
        if leap {
            29
        } else {
            28
        }
    } else if m == 4 || m == 6 || m == 9 || m == 11 {
        30
    } else {
        31
    }
}

/// What parsing one LIST line for the directory walk yields: the entry
/// name (fields nine onward, joined by spaces), whether the first field
/// marks a directory, and no modification time.  Lines of fewer than
/// nine fields are unusable.
pub open spec fn spec_parse_list_entry_dir(line: Seq<char>) -> Option<(Seq<char>, bool, Option<
    u64,
>)> {
    let parts = spec_split_ws(line);
    if parts.len() < 9 {
        None
    } else if parts[0].len() == 0 {
        None
    } else {
        Some((spec_join(parts.skip(8), ' '), parts[0][0] == 'd', None))
    }
}

/// Parses one LIST line, reporting name and directory flag only.
pub fn parse_list_entry_dir(entry_line: &str) -> (r: Option<(String, bool, Option<u64>)>)
    ensures
        match r {
            Some(t) => spec_parse_list_entry_dir(entry_line@) == Some((t.0@, t.1, t.2)),
            None => spec_parse_list_entry_dir(entry_line@) is None,
        },
{
    let parts = split_whitespace_vec(entry_line);
    if parts.len() < 9 {
        return None;
    }
    if parts[0].as_str().unicode_len() == 0 {
        return None;
    }
    let is_dir = parts[0].as_str().get_char(0) == 'd';
    proof {
        reveal_strlit(" ");
        assert(" "@.len() == 1);
        assert(" "@[0] == ' ');
    }
    let name = join_from(&parts, 8, " ");
    proof {
        assert(seq_views(parts@).skip(8) == spec_split_ws(entry_line@).skip(8));
    }
    Some((name, is_dir, None))
}

/// What parsing one LIST line yields, taking the year to be `year`:
/// name, directory flag, and the modification time, the epoch where the
/// date fields cannot be read.
pub open spec fn spec_parse_list_entry(line: Seq<char>, year: int) -> Option<(Seq<char>, bool, Option<
    u64,
>)> {
    let parts = spec_split_ws(line);
    if parts.len() < 9 {
        None
    } else if parts[0].len() == 0 {
        None
    } else {
        let modified = match spec_parse_ftp_date(parts.subrange(5, 8), year) {
            Some(m) => m,
            None => 0u64,
        };
        Some((spec_join(parts.skip(8), ' '), parts[0][0] == 'd', Some(modified)))
    }
}

/// Parses one LIST line, taking the year to be `year`.
pub fn parse_list_entry(line: &str, year: i32) -> (r: Option<(String, bool, Option<u64>)>)
    ensures
        match r {
            Some(t) => spec_parse_list_entry(line@, year as int) == Some((t.0@, t.1, t.2)),
            None => spec_parse_list_entry(line@, year as int) is None,
        },
{
    let parts = split_whitespace_vec(line);
    if parts.len() < 9 {
        return None;
    }
    if parts[0].as_str().unicode_len() == 0 {
        return None;
    }
    let is_dir = parts[0].as_str().get_char(0) == 'd';
    let mut date_parts: Vec<String> = Vec::new();
    date_parts.push(parts[5].clone());
    date_parts.push(parts[6].clone());
    date_parts.push(parts[7].clone());
    proof {
        assert(seq_views(date_parts@) =~= seq_views(parts@).subrange(5, 8));
    }
    let modified = match parse_ftp_date(&date_parts, year) {
        Some(m) => m,
        None => 0,
    };
    proof {
        reveal_strlit(" ");
        assert(" "@.len() == 1);
        assert(" "@[0] == ' ');
    }
    let name = join_from(&parts, 8, " ");
    proof {
        assert(seq_views(parts@).skip(8) == spec_split_ws(line@).skip(8));
    }
    Some((name, is_dir, Some(modified)))
}

/// Relies on `chrono::Utc::now` and `chrono::Datelike::year`: the year
/// of the current UTC time, which the LIST date format leaves implicit.
/// Nothing is promised of the clock's value.
#[verifier::external_body]
fn current_utc_year() -> i32 {
    chrono::Utc::now().year()
}

/// One FTP control command of an operation plan.  `Mkd`, `Dele` and
/// `Rmd` tolerate a `550` reply (the entity is absent or present
/// already); every other failure aborts the operation.
#[derive(Debug)]
pub enum FtpCommand {
    Cwd(String),
    Cdup,
    Mkd(String),
    Stor(String),
    Dele(String),
    Rmd(String),
    Retr(String),
}

/// The mathematical content of an [`FtpCommand`].
pub enum FtpCmd {
    Cwd(Seq<char>),
    Cdup,
    Mkd(Seq<char>),
    Stor(Seq<char>),
    Dele(Seq<char>),
    Rmd(Seq<char>),
    Retr(Seq<char>),
}

impl View for FtpCommand {
    type V = FtpCmd;

    open spec fn view(&self) -> FtpCmd {
        match self {
            FtpCommand::Cwd(p) => FtpCmd::Cwd(p@),
            FtpCommand::Cdup => FtpCmd::Cdup,
            FtpCommand::Mkd(p) => FtpCmd::Mkd(p@),
            FtpCommand::Stor(p) => FtpCmd::Stor(p@),
            FtpCommand::Dele(p) => FtpCmd::Dele(p@),
            FtpCommand::Rmd(p) => FtpCmd::Rmd(p@),
            FtpCommand::Retr(p) => FtpCmd::Retr(p@),
        }
    }
}

/// The views of a command sequence.
pub open spec fn cmd_views(v: Seq<FtpCommand>) -> Seq<FtpCmd> {
    v.map_values(|c: FtpCommand| c@)
}

/// One `Cwd` per component, in order.
pub open spec fn cwd_chain(comps: Seq<Seq<char>>) -> Seq<FtpCmd> {
    Seq::new(comps.len(), |i: int| FtpCmd::Cwd(comps[i]))
}

/// `Mkd` then `Cwd` for each component, in order.
pub open spec fn mkd_cwd_chain(comps: Seq<Seq<char>>) -> Seq<FtpCmd> {
    Seq::new(
        comps.len() * 2,
        |i: int|
            if i % 2 == 0 {
                FtpCmd::Mkd(comps[i / 2])
            } else {
                FtpCmd::Cwd(comps[i / 2])
            },
    )
}

/// `n` times `Cdup`.
pub open spec fn cdup_chain(n: int) -> Seq<FtpCmd> {
    Seq::new(if n < 0 { 0 } else { n as nat }, |i: int| FtpCmd::Cdup)
}

/// Whether the directory part of a split path triggers no walk: it is
/// empty or `.`.
pub open spec fn trivial_dir(dir: Seq<char>) -> bool {
    dir.len() == 0 || dir == seq!['.']
}

/// The command plan that uploads a file: create and enter each
/// directory of the path in turn, store the file, and walk back up.
pub open spec fn spec_write_file_commands(path: Seq<char>) -> Seq<FtpCmd> {
    let (dir, file) = spec_split_path_dir_file(path);
    if trivial_dir(dir) {
        seq![FtpCmd::Stor(file)]
    } else {
        let comps = spec_components(dir);
        mkd_cwd_chain(comps) + seq![FtpCmd::Stor(file)] + cdup_chain(comps.len() as int)
    }
}

/// The command plan that deletes a file: enter each directory of the
/// path, delete, and walk back up.
pub open spec fn spec_delete_file_commands(path: Seq<char>) -> Seq<FtpCmd> {
    let (dir, file) = spec_split_path_dir_file(path);
    if trivial_dir(dir) {
        seq![FtpCmd::Dele(file)]
    } else {
        let comps = spec_components(dir);
        cwd_chain(comps) + seq![FtpCmd::Dele(file)] + cdup_chain(comps.len() as int)
    }
}

/// The command plan that creates a directory chain: create and enter
/// each component in turn, then walk back up.
pub open spec fn spec_create_dir_commands(path: Seq<char>) -> Seq<FtpCmd> {
    let comps = spec_components(path);
    mkd_cwd_chain(comps) + cdup_chain(comps.len() as int)
}

/// The command plan that reads a file: enter the directory part with a
/// single `Cwd`, retrieve, and one `Cdup` back.
pub open spec fn spec_read_file_commands(path: Seq<char>) -> Seq<FtpCmd> {
    let (dir, file) = spec_split_path_dir_file(path);
    if trivial_dir(dir) {
        seq![FtpCmd::Retr(file)]
    } else {
        seq![FtpCmd::Cwd(dir), FtpCmd::Retr(file), FtpCmd::Cdup]
    }
}

/// Tests whether the directory part is empty or `.`.
fn is_trivial_dir(dir: &str) -> (r: bool)
    ensures
        r == trivial_dir(dir@),
{
    let n = dir.unicode_len();
    if n == 0 {
        true
    } else if n == 1 && dir.get_char(0) == '.' {
        proof {
            assert(dir@ =~= seq!['.']);
        }
        true
    } else {
        proof {
            assert(dir@ != seq!['.']) by {
                if dir@ == seq!['.'] {
                    assert(dir@.len() == 1);
                }
            }
        }
        false
    }
}

/// Appends `Mkd`/`Cwd` pairs for every component.
fn push_mkd_cwd(r: &mut Vec<FtpCommand>, comps: &Vec<String>)
    requires
        old(r)@.len() == 0,
    ensures
        cmd_views(final(r)@) == mkd_cwd_chain(seq_views(comps@)),
{
    let ghost cviews = seq_views(comps@);
    let mut i: usize = 0;
    while i < comps.len()
        invariant
            cviews == seq_views(comps@),
            i <= comps@.len(),
            r@.len() == 2 * i,
            forall|k: int|
                0 <= k < r@.len() ==> #[trigger] r@[k]@ == (if k % 2 == 0 {
                    FtpCmd::Mkd(cviews[k / 2])
                } else {
                    FtpCmd::Cwd(cviews[k / 2])
                }),
        decreases comps@.len() - i,
    {
        r.push(FtpCommand::Mkd(comps[i].clone()));
        r.push(FtpCommand::Cwd(comps[i].clone()));
        i = i + 1;
    }
    proof {
        assert(cmd_views(r@) =~= mkd_cwd_chain(cviews));
    }
}

/// Appends one `Cwd` per component.
fn push_cwds(r: &mut Vec<FtpCommand>, comps: &Vec<String>)
    requires
        old(r)@.len() == 0,
    ensures
        cmd_views(final(r)@) == cwd_chain(seq_views(comps@)),
{
    let ghost cviews = seq_views(comps@);
    let mut i: usize = 0;
    while i < comps.len()
        invariant
            cviews == seq_views(comps@),
            i <= comps@.len(),
            r@.len() == i,
            forall|k: int| 0 <= k < r@.len() ==> #[trigger] r@[k]@ == FtpCmd::Cwd(cviews[k]),
        decreases comps@.len() - i,
    {
        r.push(FtpCommand::Cwd(comps[i].clone()));
        i = i + 1;
    }
    proof {
        assert(cmd_views(r@) =~= cwd_chain(cviews));
    }
}

/// Appends `n` times `Cdup`.
fn push_cdups(r: &mut Vec<FtpCommand>, n: usize)
    ensures
        final(r)@.len() == old(r)@.len() + n,
        forall|k: int| 0 <= k < old(r)@.len() ==> final(r)@[k] == old(r)@[k],
        forall|k: int| old(r)@.len() <= k < final(r)@.len() ==> final(r)@[k]@ == FtpCmd::Cdup,
{
    let ghost r0 = r@;
    let mut i: usize = 0;
    while i < n
        invariant
            i <= n,
            r@.len() == r0.len() + i,
            forall|k: int| 0 <= k < r0.len() ==> r@[k] == r0[k],
            forall|k: int| r0.len() <= k < r@.len() ==> r@[k]@ == FtpCmd::Cdup,
        decreases n - i,
    {
        r.push(FtpCommand::Cdup);
        i = i + 1;
    }
}

/// The upload plan for `path`.
pub fn ftp_write_file_commands(path: &str) -> (r: Vec<FtpCommand>)
    ensures
        cmd_views(r@) == spec_write_file_commands(path@),
{
    let (dir, file) = split_path_dir_file(path);
    let mut r: Vec<FtpCommand> = Vec::new();
    if is_trivial_dir(dir.as_str()) {
        r.push(FtpCommand::Stor(file));
        proof {
            assert(cmd_views(r@) =~= spec_write_file_commands(path@));
        }
        r
    } else {
        let comps = path_components(dir.as_str());
        push_mkd_cwd(&mut r, &comps);
        r.push(FtpCommand::Stor(file));
        let n = comps.len();
        push_cdups(&mut r, n);
        proof {
            assert(cmd_views(r@) =~= spec_write_file_commands(path@));
        }
        r
    }
}

/// The delete plan for `path`.
pub fn ftp_delete_file_commands(path: &str) -> (r: Vec<FtpCommand>)
    ensures
        cmd_views(r@) == spec_delete_file_commands(path@),
{
    let (dir, file) = split_path_dir_file(path);
    let mut r: Vec<FtpCommand> = Vec::new();
    if is_trivial_dir(dir.as_str()) {
        r.push(FtpCommand::Dele(file));
        proof {
            assert(cmd_views(r@) =~= spec_delete_file_commands(path@));
        }
        r
    } else {
        let comps = path_components(dir.as_str());
        push_cwds(&mut r, &comps);
        r.push(FtpCommand::Dele(file));
        let n = comps.len();
        push_cdups(&mut r, n);
        proof {
            assert(cmd_views(r@) =~= spec_delete_file_commands(path@));
        }
        r
    }
}

/// The directory-creation plan for `path`.
pub fn ftp_create_dir_commands(path: &str) -> (r: Vec<FtpCommand>)
    ensures
        cmd_views(r@) == spec_create_dir_commands(path@),
{
    let comps = path_components(path);
    let mut r: Vec<FtpCommand> = Vec::new();
    push_mkd_cwd(&mut r, &comps);
    let n = comps.len();
    push_cdups(&mut r, n);
    proof {
        assert(cmd_views(r@) =~= spec_create_dir_commands(path@));
    }
    r
}

/// The read plan for `path`.
pub fn ftp_read_file_commands(path: &str) -> (r: Vec<FtpCommand>)
    ensures
        cmd_views(r@) == spec_read_file_commands(path@),
{
    let (dir, file) = split_path_dir_file(path);
    let mut r: Vec<FtpCommand> = Vec::new();
    if is_trivial_dir(dir.as_str()) {
        r.push(FtpCommand::Retr(file));
    } else {
        r.push(FtpCommand::Cwd(dir));
        r.push(FtpCommand::Retr(file));
        r.push(FtpCommand::Cdup);
    }
    proof {
        assert(cmd_views(r@) =~= spec_read_file_commands(path@));
    }
    r
}

/// Joins two path fragments with a literal `/`.
fn slash_join(a: &str, b: &str) -> (r: String)
    ensures
        r@ == a@ + seq!['/'] + b@,
{
    let mut r = a.to_owned();
    r.append("/");
    r.append(b);
    proof {
        reveal_strlit("/");
        assert("/"@ =~= seq!['/']);
    }
    r
}

/// The walk to the parent of the directory to remove: one `Cwd` per
/// component but the last, and the last component as the target.
/// Nothing is planned for a path without components.
pub struct FtpRemoveDirPlan {
    pub enter: Vec<FtpCommand>,
    pub target: String,
}

/// Plans the descent for a recursive directory removal.
pub fn ftp_remove_dir_enter(path: &str) -> (r: Option<FtpRemoveDirPlan>)
    ensures
        match r {
            None => spec_components(path@).len() == 0,
            Some(plan) => spec_components(path@).len() > 0 && cmd_views(plan.enter@) == cwd_chain(
                spec_components(path@).drop_last(),
            ) && plan.target@ == spec_components(path@).last(),
        },
{
    let comps = path_components(path);
    let ghost cviews = spec_components(path@);
    let n = comps.len();
    if n == 0 {
        return None;
    }
    let mut enter: Vec<FtpCommand> = Vec::new();
    let mut i: usize = 0;
    while i < n - 1
        invariant
            cviews == seq_views(comps@),
            n == comps@.len(),
            n >= 1,
            i <= n - 1,
            enter@.len() == i,
            forall|k: int| 0 <= k < enter@.len() ==> #[trigger] enter@[k]@ == FtpCmd::Cwd(cviews[k]),
        decreases n - 1 - i,
    {
        enter.push(FtpCommand::Cwd(comps[i].clone()));
        i = i + 1;
    }
    let target = comps[n - 1].clone();
    proof {
        assert(cmd_views(enter@) =~= cwd_chain(cviews.drop_last()));
    }
    Some(FtpRemoveDirPlan { enter, target })
}

/// What one level of a recursive directory removal does with the
/// target's LIST lines: subdirectory entries become `path/name`, to be
/// removed recursively; file entries become `target/name`, to be
/// deleted in place.
pub open spec fn spec_remove_dir_children(
    path: Seq<char>,
    target: Seq<char>,
    entries: Seq<Seq<char>>,
) -> (Seq<Seq<char>>, Seq<Seq<char>>)
    decreases entries.len(),
{
    if entries.len() == 0 {
        (Seq::empty(), Seq::empty())
    } else {
        let (sd, fr) = spec_remove_dir_children(path, target, entries.drop_last());
        match spec_parse_list_entry_dir(entries.last()) {
            None => (sd, fr),
            Some((name, is_dir, _)) => if is_dir {
                (sd.push(path + seq!['/'] + name), fr)
            } else {
                (sd, fr.push(target + seq!['/'] + name))
            },
        }
    }
}

/// Sorts the target's LIST lines into subdirectory paths to recurse
/// into and file paths to delete.
pub fn ftp_remove_dir_children(path: &str, target: &str, entries: &Vec<String>) -> (r: (
    Vec<String>,
    Vec<String>,
))
    ensures
        (seq_views(r.0@), seq_views(r.1@)) == spec_remove_dir_children(
            path@,
            target@,
            seq_views(entries@),
        ),
{
    let ghost eviews = seq_views(entries@);
    let mut subdirs: Vec<String> = Vec::new();
    let mut file_rms: Vec<String> = Vec::new();
    let mut i: usize = 0;
    proof {
        assert(eviews.take(0) =~= Seq::<Seq<char>>::empty());
    }
    while i < entries.len()
        invariant
            eviews == seq_views(entries@),
            i <= entries@.len(),
            (seq_views(subdirs@), seq_views(file_rms@)) == spec_remove_dir_children(
                path@,
                target@,
                eviews.take(i as int),
            ),
        decreases entries@.len() - i,
    {
        let ghost sub0 = seq_views(subdirs@);
        let ghost rm0 = seq_views(file_rms@);
        match parse_list_entry_dir(entries[i].as_str()) {
            Some((name, is_dir, _)) => {
                if is_dir {
                    let p = slash_join(path, name.as_str());
                    subdirs.push(p);
                    proof {
                        assert(seq_views(subdirs@) =~= sub0.push(
                            subdirs@.last()@,
                        ));
                    }
                } else {
                    let p = slash_join(target, name.as_str());
                    file_rms.push(p);
                    proof {
                        assert(seq_views(file_rms@) =~= rm0.push(file_rms@.last()@));
                    }
                }
            },
            None => {},
        }
        i = i + 1;
        proof {
            let t = eviews.take(i as int);
            assert(t.drop_last() =~= eviews.take(i as int - 1));
            assert(t.last() == eviews[i as int - 1]);
            assert(eviews[i as int - 1] == entries@[i as int - 1]@);
        }
    }
    proof {
        assert(eviews.take(entries@.len() as int) =~= eviews);
    }
    (subdirs, file_rms)
}

/// Whether a joined entry path must be skipped during recursive
/// listing: empty, `.` or `..`.
pub open spec fn invalid_entry_path(p: Seq<char>) -> bool {
    p.len() == 0 || p == seq!['.'] || p == seq!['.', '.']
}

/// Tests [`invalid_entry_path`].
fn is_invalid_entry_path(p: &str) -> (r: bool)
    ensures
        r == invalid_entry_path(p@),
{
    let n = p.unicode_len();
    if n == 0 {
        true
    } else if n == 1 && p.get_char(0) == '.' {
        proof {
            assert(p@ =~= seq!['.']);
        }
        true
    } else if n == 2 && p.get_char(0) == '.' && p.get_char(1) == '.' {
        proof {
            assert(p@ =~= seq!['.', '.']);
        }
        true
    } else {
        proof {
            assert(p@ != seq!['.']) by {
                if p@ == seq!['.'] {
                    assert(p@.len() == 1);
                    assert(p@[0] == '.');
                }
            }
            assert(p@ != seq!['.', '.']) by {
                if p@ == seq!['.', '.'] {
                    assert(p@.len() == 2);
                    assert(p@[0] == '.');
                    assert(p@[1] == '.');
                }
            }
        }
        false
    }
}

/// One directory found at one level of the recursive walk: the entry
/// name used for the next `Cwd`, and the record keyed by the full path.
pub struct FtpDirStep {
    pub name: String,
    pub record: crate::locations::DirMetadata,
}

/// The mathematical content of an [`FtpDirStep`].
pub struct FtpDirStepV {
    pub name: Seq<char>,
    pub record: crate::locations::DirRec,
}

impl View for FtpDirStep {
    type V = FtpDirStepV;

    open spec fn view(&self) -> FtpDirStepV {
        FtpDirStepV { name: self.name@, record: self.record@ }
    }
}

/// The views of a sequence of directory steps.
pub open spec fn dir_step_views(v: Seq<FtpDirStep>) -> Seq<FtpDirStepV> {
    v.map_values(|s: FtpDirStep| s@)
}

/// What one level of the recursive directory listing yields from its
/// LIST lines: for each directory entry whose joined path is usable, a
/// record at the joined path with the epoch as modification time, to be
/// descended into by its entry name.
pub open spec fn spec_list_dirs_level(full: Seq<char>, entries: Seq<Seq<char>>) -> Seq<FtpDirStepV>
    decreases entries.len(),
{
    if entries.len() == 0 {
        Seq::empty()
    } else {
        let pre = spec_list_dirs_level(full, entries.drop_last());
        match spec_parse_list_entry_dir(entries.last()) {
            Some((name, is_dir, _)) => if is_dir {
                let child = spec_join_path(full, name);
                if invalid_entry_path(child) {
                    pre
                } else {
                    pre.push(
                        FtpDirStepV {
                            name,
                            record: crate::locations::DirRec { path: child, modified: 0 },
                        },
                    )
                }
            } else {
                pre
            },
            None => pre,
        }
    }
}

/// Plans one level of the recursive directory listing.
pub fn list_dirs_level(full_path: &str, entries: &Vec<String>) -> (r: Vec<FtpDirStep>)
    ensures
        dir_step_views(r@) == spec_list_dirs_level(full_path@, seq_views(entries@)),
{
    let ghost eviews = seq_views(entries@);
    let mut out: Vec<FtpDirStep> = Vec::new();
    let mut i: usize = 0;
    proof {
        assert(eviews.take(0) =~= Seq::<Seq<char>>::empty());
    }
    while i < entries.len()
        invariant
            eviews == seq_views(entries@),
            i <= entries@.len(),
            dir_step_views(out@) == spec_list_dirs_level(full_path@, eviews.take(i as int)),
        decreases entries@.len() - i,
    {
        let ghost out0 = dir_step_views(out@);
        match parse_list_entry_dir(entries[i].as_str()) {
            Some((name, is_dir, _)) => {
                if is_dir {
                    let child = join_path(full_path, name.as_str());
                    if !is_invalid_entry_path(child.as_str()) {
                        let record = crate::locations::DirMetadata { path: child, modified: 0 };
                        out.push(FtpDirStep { name, record });
                        proof {
                            assert(dir_step_views(out@) =~= out0.push(out@.last()@));
                        }
                    }
                }
            },
            None => {},
        }
        i = i + 1;
        proof {
            let t = eviews.take(i as int);
            assert(t.drop_last() =~= eviews.take(i as int - 1));
            assert(t.last() == eviews[i as int - 1]);
            assert(eviews[i as int - 1] == entries@[i as int - 1]@);
        }
    }
    proof {
        assert(eviews.take(entries@.len() as int) =~= eviews);
    }
    out
}

/// One outcome at one level of the recursive file listing: a file
/// record (its hash not yet known), or a subdirectory to descend into.
pub enum FtpFileStep {
    File(crate::locations::FileMetadata),
    Descend { name: String, child: String },
}

/// The mathematical content of an [`FtpFileStep`].
pub enum FtpFileStepV {
    File(crate::locations::FileRec),
    Descend { name: Seq<char>, child: Seq<char> },
}

impl View for FtpFileStep {
    type V = FtpFileStepV;

    open spec fn view(&self) -> FtpFileStepV {
        match self {
            FtpFileStep::File(m) => FtpFileStepV::File(m@),
            FtpFileStep::Descend { name, child } => FtpFileStepV::Descend {
                name: name@,
                child: child@,
            },
        }
    }
}

/// The views of a sequence of file steps.
pub open spec fn file_step_views(v: Seq<FtpFileStep>) -> Seq<FtpFileStepV> {
    v.map_values(|s: FtpFileStep| s@)
}

/// What one level of the recursive file listing yields from its LIST
/// lines, taking the year to be `year`: for each usable entry, a file
/// record keyed by the joined path with no hash yet, or a subdirectory
/// to descend into.
pub open spec fn spec_list_files_level(
    full: Seq<char>,
    entries: Seq<Seq<char>>,
    year: int,
) -> Seq<FtpFileStepV>
    decreases entries.len(),
{
    if entries.len() == 0 {
        Seq::empty()
    } else {
        let pre = spec_list_files_level(full, entries.drop_last(), year);
        match spec_parse_list_entry(entries.last(), year) {
            Some((name, is_dir, mt)) => {
                let child = spec_join_path(full, name);
                if invalid_entry_path(child) {
                    pre
                } else if is_dir {
                    pre.push(FtpFileStepV::Descend { name, child })
                } else {
                    pre.push(
                        FtpFileStepV::File(
                            crate::locations::FileRec {
                                path: child,
                                modified: match mt {
                                    Some(m) => m,
                                    None => 0u64,
                                },
                                hash: None,
                            },
                        ),
                    )
                }
            },
            None => pre,
        }
    }
}

/// Whether two file steps agree in everything but the modification
/// time: same variant, same names and paths, same (absent) hash.
pub open spec fn same_file_step_shape(a: FtpFileStepV, b: FtpFileStepV) -> bool {
    match (a, b) {
        (FtpFileStepV::File(x), FtpFileStepV::File(y)) => x.path == y.path && x.hash == y.hash,
        (
            FtpFileStepV::Descend { name: n1, child: c1 },
            FtpFileStepV::Descend { name: n2, child: c2 },
        ) => n1 == n2 && c1 == c2,
        _ => false,
    }
}

/// Whether two step sequences agree in everything but the modification
/// times.
pub open spec fn same_steps_shape(a: Seq<FtpFileStepV>, b: Seq<FtpFileStepV>) -> bool {
    a.len() == b.len() && forall|i: int|
        0 <= i < a.len() ==> same_file_step_shape(#[trigger] a[i], b[i])
}

/// The assumed year reaches only the modification times: two years
/// yield the same steps up to those times.
proof fn lemma_list_level_shape_year_free(
    full: Seq<char>,
    entries: Seq<Seq<char>>,
    y1: int,
    y2: int,
)
    ensures
        same_steps_shape(
            spec_list_files_level(full, entries, y1),
            spec_list_files_level(full, entries, y2),
        ),
    decreases entries.len(),
{
    if entries.len() > 0 {
        lemma_list_level_shape_year_free(full, entries.drop_last(), y1, y2);
        let a = spec_list_files_level(full, entries, y1);
        let b = spec_list_files_level(full, entries, y2);
        let pa = spec_list_files_level(full, entries.drop_last(), y1);
        let pb = spec_list_files_level(full, entries.drop_last(), y2);
        match spec_parse_list_entry(entries.last(), y1) {
            Some((name1, is_dir1, mt1)) => {
                match spec_parse_list_entry(entries.last(), y2) {
                    Some((name2, is_dir2, mt2)) => {
                        assert(name1 == name2);
                        assert(is_dir1 == is_dir2);
                        assert forall|i: int|
                            0 <= i < a.len() implies same_file_step_shape(
                            #[trigger] a[i],
                            b[i],
                        ) by {
                            if i < pa.len() {
                                assert(same_file_step_shape(pa[i], pb[i]));
                            }
                        }
                    },
                    None => {
                        assert(false);
                    },
                }
            },
            None => {
                assert(spec_parse_list_entry(entries.last(), y2) is None);
            },
        }
    }
}

/// Plans one level of the recursive file listing.  The year of the LIST
/// dates is taken from the clock, so the modification times are exact
/// for some year; everything else is year-independent.
pub fn list_files_level(full_path: &str, entries: &Vec<String>) -> (r: Vec<FtpFileStep>)
    ensures
        exists|y: int|
            file_step_views(r@) == spec_list_files_level(full_path@, seq_views(entries@), y),
        forall|y: int|
            same_steps_shape(
                file_step_views(r@),
                spec_list_files_level(full_path@, seq_views(entries@), y),
            ),
{
    let year = current_utc_year();
    let ghost y = year as int;
    let ghost eviews = seq_views(entries@);
    let mut out: Vec<FtpFileStep> = Vec::new();
    let mut i: usize = 0;
    proof {
        assert(eviews.take(0) =~= Seq::<Seq<char>>::empty());
    }
    while i < entries.len()
        invariant
            eviews == seq_views(entries@),
            i <= entries@.len(),
            y == year as int,
            file_step_views(out@) == spec_list_files_level(full_path@, eviews.take(i as int), y),
        decreases entries@.len() - i,
    {
        let ghost out0 = file_step_views(out@);
        match parse_list_entry(entries[i].as_str(), year) {
            Some((name, is_dir, mt)) => {
                let child = join_path(full_path, name.as_str());
                if !is_invalid_entry_path(child.as_str()) {
                    if is_dir {
                        out.push(FtpFileStep::Descend { name, child });
                    } else {
                        let modified = match mt {
                            Some(m) => m,
                            None => 0,
                        };
                        out.push(
                            FtpFileStep::File(
                                crate::locations::FileMetadata { path: child, modified, hash: None },
                            ),
                        );
                    }
                    proof {
                        assert(file_step_views(out@) =~= out0.push(out@.last()@));
                    }
                }
            },
            None => {},
        }
        i = i + 1;
        proof {
            let t = eviews.take(i as int);
            assert(t.drop_last() =~= eviews.take(i as int - 1));
            assert(t.last() == eviews[i as int - 1]);
            assert(eviews[i as int - 1] == entries@[i as int - 1]@);
        }
    }
    proof {
        assert(eviews.take(entries@.len() as int) =~= eviews);
        assert forall|y2: int|
            same_steps_shape(
                file_step_views(out@),
                spec_list_files_level(full_path@, eviews, y2),
            ) by {
            lemma_list_level_shape_year_free(full_path@, eviews, y, y2);
        }
    }
    out
}

/// The file record completed with the hash of the bytes the driver
/// could read, or no hash where the read failed.
pub fn ftp_file_with_hash(meta: crate::locations::FileMetadata, data: Option<&Vec<u8>>) -> (r:
    crate::locations::FileMetadata)
    ensures
        r@.path == meta@.path,
        r@.modified == meta@.modified,
        r@.hash == match data {
            Some(d) => Some(crate::hashing::sha256_hex(d@)),
            None => None::<Seq<char>>,
        },
{
    let hash = match data {
        Some(d) => Some(crate::hashing::sha256_hex_string(d)),
        None => None,
    };
    crate::locations::FileMetadata { path: meta.path, modified: meta.modified, hash }
}

/// Whether an FTP error message carries the `550` reply code, the code
/// for an absent entity, which `Mkd`, `Dele` and `Rmd` tolerate.
pub fn response_says_absent(msg: &str) -> (r: bool)
    ensures
        r == crate::strutil::spec_contains(msg@, seq!['5', '5', '0']),
{
    proof {
        reveal_strlit("550");
        assert("550"@ =~= seq!['5', '5', '0']);
    }
    crate::strutil::contains_str(msg, "550")
}

} // verus!
