use foldsync::errors::SyncError;
use foldsync::locations::ftp::{
    parse_ftp_date, parse_list_entry, parse_list_entry_dir, split_path_dir_file,
};
use foldsync::locations::parse_location;
use foldsync::locations::ParsedLocation;
use foldsync::strutil::{contains_str, join_path, parse_u32_digits, split_whitespace_vec,
    strip_path_prefix, path_components};

#[test]
fn parse_location_folder() {
    match parse_location("folder:/tmp/data").unwrap() {
        ParsedLocation::Folder(f) => assert_eq!(f.path, "/tmp/data"),
        _ => panic!("expected a folder location"),
    }
}

#[test]
fn parse_location_zip() {
    match parse_location("zip:archive.zip").unwrap() {
        ParsedLocation::Zip(z) => assert_eq!(z.path, "archive.zip"),
        _ => panic!("expected a zip location"),
    }
}

#[test]
fn parse_location_ftp() {
    match parse_location("ftp:user:pw@host.example:21/remote/dir").unwrap() {
        ParsedLocation::Ftp(f) => {
            assert_eq!(f.user, "user");
            assert_eq!(f.pass, "pw");
            assert_eq!(f.host, "host.example:21");
            assert_eq!(f.path, "remote/dir");
        },
        _ => panic!("expected an ftp location"),
    }
}

#[test]
fn parse_location_ftp_simple() {
    match parse_location("ftp:alice:pw@example.com/pub").unwrap() {
        ParsedLocation::Ftp(f) => {
            assert_eq!(f.user, "alice");
            assert_eq!(f.pass, "pw");
            assert_eq!(f.host, "example.com");
            assert_eq!(f.path, "pub");
        },
        _ => panic!("expected an ftp location"),
    }
}

#[test]
fn parse_location_no_colon_fails() {
    match parse_location("justapath") {
        Err(SyncError::Parse(_)) => {},
        _ => panic!("expected a parse error"),
    }
}

#[test]
fn parse_location_unknown_scheme_fails() {
    match parse_location("http:whatever") {
        Err(SyncError::Parse(_)) => {},
        _ => panic!("expected a parse error"),
    }
}

#[test]
fn parse_location_ftp_without_at_fails() {
    match parse_location("ftp:useronly/path") {
        Err(SyncError::Parse(_)) => {},
        _ => panic!("expected a parse error"),
    }
}

#[test]
fn split_path_dir_file_splits_at_last_slash() {
    let (dir, file) = split_path_dir_file("a/b/c.txt");
    assert_eq!(dir, "a/b");
    assert_eq!(file, "c.txt");
    let (dir2, file2) = split_path_dir_file("plain.txt");
    assert_eq!(dir2, "");
    assert_eq!(file2, "plain.txt");
}

#[test]
fn list_entry_parses_unix_long_format() {
    let line = "-rw-r--r-- 1 user group 1234 Mar 15 10:30 file.txt";
    let (name, is_dir, modified) = parse_list_entry(line, 2024).unwrap();
    assert_eq!(name, "file.txt");
    assert!(!is_dir);
    // 2024-03-15 10:30:00 UTC.
    assert_eq!(modified, Some(1710498600));
}

#[test]
fn list_entry_directory_flag() {
    let line = "drwxr-xr-x 2 user group 4096 Jan 01 00:00 subdir";
    let (name, is_dir, _) = parse_list_entry(line, 2024).unwrap();
    assert_eq!(name, "subdir");
    assert!(is_dir);
}

#[test]
fn list_entry_name_keeps_spaces() {
    let line = "-rw-r--r-- 1 user group 9 Jun 02 08:05 my file name.txt";
    let (name, _, _) = parse_list_entry(line, 2023).unwrap();
    assert_eq!(name, "my file name.txt");
}

#[test]
fn list_entry_too_few_fields() {
    assert!(parse_list_entry("-rw-r--r-- 1 user group", 2024).is_none());
    assert!(parse_list_entry("", 2024).is_none());
}

#[test]
fn list_entry_bad_date_yields_epoch() {
    let line = "-rw-r--r-- 1 user group 1234 Foo 15 10:30 file.txt";
    let (_, _, modified) = parse_list_entry(line, 2024).unwrap();
    assert_eq!(modified, Some(0));
}

#[test]
fn list_entry_dir_has_no_time() {
    let line = "drwxr-xr-x 2 user group 4096 Mar 15 10:30 subdir";
    let (name, is_dir, modified) = parse_list_entry_dir(line).unwrap();
    assert_eq!(name, "subdir");
    assert!(is_dir);
    assert_eq!(modified, None);
}

#[test]
fn ftp_date_epoch_start() {
    let parts = vec!["Jan".to_string(), "1".to_string(), "00:00".to_string()];
    assert_eq!(parse_ftp_date(&parts, 1970), Some(0));
}

#[test]
fn ftp_date_leap_day() {
    let parts = vec!["Feb".to_string(), "29".to_string(), "12:00".to_string()];
    // 2024 is a leap year: 2024-02-29 12:00:00 UTC.
    assert_eq!(parse_ftp_date(&parts, 2024), Some(1709208000));
    // 2023 is not.
    assert_eq!(parse_ftp_date(&parts, 2023), None);
}

#[test]
fn ftp_date_century_rule() {
    let parts = vec!["Feb".to_string(), "29".to_string(), "00:00".to_string()];
    // 2000 was a leap year (divisible by 400), 1900 was not; years
    // before 1970 are out of range altogether.
    assert_eq!(parse_ftp_date(&parts, 2000), Some(951782400));
    assert_eq!(parse_ftp_date(&parts, 1900), None);
}

#[test]
fn ftp_date_rejects_bad_fields() {
    let bad_day = vec!["Mar".to_string(), "x5".to_string(), "10:30".to_string()];
    assert_eq!(parse_ftp_date(&bad_day, 2024), None);
    let bad_time = vec!["Mar".to_string(), "15".to_string(), "25:00".to_string()];
    assert_eq!(parse_ftp_date(&bad_time, 2024), None);
    let bad_minute = vec!["Mar".to_string(), "15".to_string(), "10:61".to_string()];
    assert_eq!(parse_ftp_date(&bad_minute, 2024), None);
    let no_colon = vec!["Mar".to_string(), "15".to_string(), "1030".to_string()];
    assert_eq!(parse_ftp_date(&no_colon, 2024), None);
    let day_overflow = vec!["Apr".to_string(), "31".to_string(), "10:30".to_string()];
    assert_eq!(parse_ftp_date(&day_overflow, 2024), None);
}

#[test]
fn u32_parsing() {
    assert_eq!(parse_u32_digits("0"), Some(0));
    assert_eq!(parse_u32_digits("0042"), Some(42));
    assert_eq!(parse_u32_digits("4294967295"), Some(u32::MAX));
    assert_eq!(parse_u32_digits("4294967296"), None);
    assert_eq!(parse_u32_digits(""), None);
    assert_eq!(parse_u32_digits("12a"), None);
}

#[test]
fn whitespace_splitting() {
    let parts = split_whitespace_vec("  a  bb\tccc ");
    assert_eq!(parts, vec!["a", "bb", "ccc"]);
    let empty = split_whitespace_vec("   ");
    assert!(empty.is_empty());
}

#[test]
fn path_component_splitting() {
    assert_eq!(path_components("a/b/c"), vec!["a", "b", "c"]);
    assert_eq!(path_components("/a//b/"), vec!["a", "b"]);
    assert!(path_components("").is_empty());
}

#[test]
fn join_path_handles_root_forms() {
    assert_eq!(join_path(".", "x"), "x");
    assert_eq!(join_path("", "x"), "x");
    assert_eq!(join_path("a/b", "x"), "a/b/x");
}

#[test]
fn prefix_stripping() {
    assert_eq!(strip_path_prefix("/A/sub/f.txt", "/A"), Some("sub/f.txt".to_string()));
    assert_eq!(strip_path_prefix("/A/f.txt", "/A/"), Some("f.txt".to_string()));
    assert_eq!(strip_path_prefix("/AB/f.txt", "/A"), None);
    assert_eq!(strip_path_prefix("/A", "/A"), Some("".to_string()));
    assert_eq!(strip_path_prefix("/B/f.txt", "/A"), None);
}

#[test]
fn absent_reply_detection() {
    assert!(contains_str("550 No such file", "550"));
    assert!(contains_str("error: 550", "550"));
    assert!(!contains_str("250 OK", "550"));
    assert!(!contains_str("", "550"));
}

#[test]
fn error_messages_carry_their_text() {
    assert_eq!(SyncError::Io("nope".to_string()).message(), "nope");
    assert_eq!(SyncError::Ftp("down".to_string()).message(), "down");
    assert_eq!(SyncError::Parse("bad".to_string()).message(), "bad");
}
