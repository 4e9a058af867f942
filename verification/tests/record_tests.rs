use foldsync::locations::folder::{folder_dir_record, folder_file_record, folder_time};
use foldsync::locations::ftp::{
    ftp_create_dir_commands, ftp_delete_file_commands, ftp_file_with_hash,
    ftp_read_file_commands, ftp_remove_dir_children, ftp_remove_dir_enter,
    ftp_write_file_commands, list_dirs_level, list_files_level, response_says_absent,
    FtpCommand, FtpFileStep,
};
use foldsync::locations::zip::{extract_directories, zip_dir_records, zip_file_record, ZipEntryMeta};
use foldsync::locations::FileMetadata;
use sha2::Digest;

const HELLO_SHA256: &str = "2cf24dba5fb0a30e26e83b2ac5b9e29e1b161e5c1fa7425e73043362938b9824";

#[test]
fn zip_record_hashes_member_bytes() {
    let rec = zip_file_record("doc.md".to_string(), &b"hello".to_vec());
    assert_eq!(rec.path, "doc.md");
    assert_eq!(rec.modified, 0);
    assert_eq!(rec.hash.as_deref(), Some(HELLO_SHA256));
}

#[test]
fn hash_agrees_with_reference_implementation() {
    // The library's digest of arbitrary bytes must agree with computing
    // SHA-256 and hex encoding directly.
    let data = b"some longer content\x00\xffwith bytes".to_vec();
    let expected = hex::encode(sha2::Sha256::digest(&data));
    let rec = zip_file_record("f".to_string(), &data);
    assert_eq!(rec.hash.as_deref(), Some(expected.as_str()));
}

#[test]
fn folder_record_offsets_time_and_hashes() {
    let rec = folder_file_record("a/b.txt".to_string(), 1000, Some(&b"hello".to_vec()));
    assert_eq!(rec.path, "a/b.txt");
    assert_eq!(rec.modified, 1000 + 7200);
    assert_eq!(rec.hash.as_deref(), Some(HELLO_SHA256));
    let unread = folder_file_record("a/b.txt".to_string(), 1000, None);
    assert_eq!(unread.hash, None);
}

#[test]
fn folder_time_saturates_at_the_top() {
    assert_eq!(folder_time(5), 7205);
    assert_eq!(folder_time(u64::MAX), u64::MAX);
}

#[test]
fn folder_dir_record_keeps_plain_time() {
    let rec = folder_dir_record("sub".to_string(), 1234);
    assert_eq!(rec.path, "sub");
    assert_eq!(rec.modified, 1234);
}

#[test]
fn ancestors_of_member_path() {
    assert_eq!(extract_directories("a/b/c.txt"), vec!["a/b", "a", ""]);
    assert_eq!(extract_directories("sub/"), vec![""]);
    assert_eq!(extract_directories("top.txt"), vec![""]);
    assert!(extract_directories("").is_empty());
}

#[test]
fn zip_directory_set() {
    let entries = vec![
        ZipEntryMeta { name: "dir/".to_string(), is_dir: true },
        ZipEntryMeta { name: "dir/sub/f.txt".to_string(), is_dir: false },
        ZipEntryMeta { name: "dir/sub/g.txt".to_string(), is_dir: false },
    ];
    let recs = zip_dir_records(&entries);
    let mut paths: Vec<String> = recs.iter().map(|r| r.path.clone()).collect();
    paths.sort();
    assert_eq!(paths, vec!["dir", "dir/", "dir/sub"]);
    assert!(recs.iter().all(|r| r.modified == 0));
}

fn cmd_strings(cmds: &[FtpCommand]) -> Vec<String> {
    cmds.iter()
        .map(|c| match c {
            FtpCommand::Cwd(p) => format!("cwd {}", p),
            FtpCommand::Cdup => "cdup".to_string(),
            FtpCommand::Mkd(p) => format!("mkd {}", p),
            FtpCommand::Stor(p) => format!("stor {}", p),
            FtpCommand::Dele(p) => format!("dele {}", p),
            FtpCommand::Rmd(p) => format!("rmd {}", p),
            FtpCommand::Retr(p) => format!("retr {}", p),
        })
        .collect()
}

#[test]
fn write_plan_walks_and_returns() {
    let cmds = ftp_write_file_commands("a/b/f.txt");
    assert_eq!(
        cmd_strings(&cmds),
        vec!["mkd a", "cwd a", "mkd b", "cwd b", "stor f.txt", "cdup", "cdup"]
    );
    let flat = ftp_write_file_commands("f.txt");
    assert_eq!(cmd_strings(&flat), vec!["stor f.txt"]);
}

#[test]
fn delete_plan_walks_and_returns() {
    let cmds = ftp_delete_file_commands("a/b/f.txt");
    assert_eq!(
        cmd_strings(&cmds),
        vec!["cwd a", "cwd b", "dele f.txt", "cdup", "cdup"]
    );
}

#[test]
fn create_dir_plan_creates_each_component() {
    let cmds = ftp_create_dir_commands("x/y");
    assert_eq!(cmd_strings(&cmds), vec!["mkd x", "cwd x", "mkd y", "cwd y", "cdup", "cdup"]);
    assert!(ftp_create_dir_commands("").is_empty());
}

#[test]
fn read_plan_enters_directory_once() {
    let cmds = ftp_read_file_commands("a/b/f.txt");
    assert_eq!(cmd_strings(&cmds), vec!["cwd a/b", "retr f.txt", "cdup"]);
    let flat = ftp_read_file_commands("f.txt");
    assert_eq!(cmd_strings(&flat), vec!["retr f.txt"]);
}

#[test]
fn remove_dir_descent() {
    let plan = ftp_remove_dir_enter("a/b/c").unwrap();
    assert_eq!(cmd_strings(&plan.enter), vec!["cwd a", "cwd b"]);
    assert_eq!(plan.target, "c");
    assert!(ftp_remove_dir_enter("").is_none());
}

#[test]
fn remove_dir_children_sorted_by_kind() {
    let entries = vec![
        "drwxr-xr-x 2 u g 4096 Jan 01 00:00 sub".to_string(),
        "-rw-r--r-- 1 u g 10 Jan 01 00:00 f.txt".to_string(),
        "garbage".to_string(),
    ];
    let (subdirs, file_rms) = ftp_remove_dir_children("a/b", "b", &entries);
    assert_eq!(subdirs, vec!["a/b/sub".to_string()]);
    assert_eq!(file_rms, vec!["b/f.txt".to_string()]);
}

#[test]
fn dirs_level_records_and_descends() {
    let entries = vec![
        "drwxr-xr-x 2 u g 4096 Jan 01 00:00 sub".to_string(),
        "-rw-r--r-- 1 u g 10 Jan 01 00:00 f.txt".to_string(),
        "drwxr-xr-x 2 u g 4096 Jan 01 00:00 ..".to_string(),
    ];
    // At the root level the `..` entry joins to plain `..` and is
    // refused, guarding the walk against cycling upward.
    let steps = list_dirs_level(".", &entries);
    assert_eq!(steps.len(), 1);
    assert_eq!(steps[0].name, "sub");
    assert_eq!(steps[0].record.path, "sub");
    assert_eq!(steps[0].record.modified, 0);
    let nested = list_dirs_level("root", &entries);
    assert_eq!(nested.len(), 2);
    assert_eq!(nested[0].record.path, "root/sub");
}

#[test]
fn files_level_records_and_descends() {
    let entries = vec![
        "-rw-r--r-- 1 u g 10 Jan 01 00:00 f.txt".to_string(),
        "drwxr-xr-x 2 u g 4096 Jan 01 00:00 sub".to_string(),
        "short line".to_string(),
    ];
    let steps = list_files_level(".", &entries);
    assert_eq!(steps.len(), 2);
    match &steps[0] {
        FtpFileStep::File(m) => {
            assert_eq!(m.path, "f.txt");
            assert_eq!(m.hash, None);
        },
        _ => panic!("expected a file step"),
    }
    match &steps[1] {
        FtpFileStep::Descend { name, child } => {
            assert_eq!(name, "sub");
            assert_eq!(child, "sub");
        },
        _ => panic!("expected a descend step"),
    }
}

#[test]
fn hash_fill_after_read() {
    let bare = FileMetadata { path: "f".to_string(), modified: 9, hash: None };
    let hashed = ftp_file_with_hash(bare, Some(&b"hello".to_vec()));
    assert_eq!(hashed.path, "f");
    assert_eq!(hashed.modified, 9);
    assert_eq!(hashed.hash.as_deref(), Some(HELLO_SHA256));
    let unreadable = FileMetadata { path: "g".to_string(), modified: 3, hash: None };
    let still_bare = ftp_file_with_hash(unreadable, None);
    assert_eq!(still_bare.hash, None);
}

#[test]
fn reply_code_tolerance() {
    assert!(response_says_absent("550 Requested action not taken"));
    assert!(!response_says_absent("257 directory created"));
}
