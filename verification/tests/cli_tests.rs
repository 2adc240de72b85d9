use backuppc_pool_reader::cli::{
    cat_target, digest_to_cat, format_ls, format_ls_line, CatTarget, CliError,
};
use backuppc_pool_reader::decode_attribut::{BpcDigest, FileAttributes, FileType};
use backuppc_pool_reader::error::PoolError;
use backuppc_pool_reader::hosts::host_names;

fn record(name: &str, type_: FileType, mode: u16) -> FileAttributes {
    FileAttributes {
        name: name.to_string(),
        type_,
        compress: 0,
        mode,
        uid: 1000,
        gid: 100,
        nlinks: 1,
        mtime: 1_700_000_000,
        size: 1234,
        inode: 0,
        bpc_digest: BpcDigest { len: 2, digest: vec![0xab, 0x01] },
        xattr_num_entries: 0,
        xattrs: Vec::new(),
    }
}

#[test]
fn listing_line_pads_numbers_to_columns() {
    let f = record("notes.txt", FileType::File, 0o644);
    let expected = format!(
        "{} {} {: <5} {: <5} {: <10} {: <12} {} {}",
        "-rw-r--r--", 1, 1000, 100, 1234, 1_700_000_000u64, "notes.txt", "ab01"
    );
    assert_eq!(format_ls_line(&f), expected);
    assert_eq!(format_ls_line(&f), "-rw-r--r-- 1 1000  100   1234       1700000000   notes.txt ab01");
}

#[test]
fn listing_line_does_not_cut_long_numbers() {
    let f = FileAttributes {
        uid: 1_234_567,
        gid: 0,
        size: u64::MAX,
        mtime: u64::MAX,
        nlinks: 0,
        bpc_digest: BpcDigest { len: 0, digest: vec![] },
        ..record("x", FileType::Dir, 0o755)
    };
    assert_eq!(
        format_ls_line(&f),
        "drwxr-xr-x 0 1234567 0     18446744073709551615 18446744073709551615 x "
    );
}

#[test]
fn listing_shows_kind_and_permissions() {
    for (t, letter) in [
        (FileType::File, '-'),
        (FileType::Hardlink, '-'),
        (FileType::Symlink, 'l'),
        (FileType::Chardev, 'c'),
        (FileType::Blockdev, 'b'),
        (FileType::Dir, 'd'),
        (FileType::Fifo, 'p'),
        (FileType::Unknown, '?'),
        (FileType::Socket, 's'),
        (FileType::Deleted, 'D'),
    ] {
        let line = format_ls_line(&record("x", t, 0));
        assert_eq!(&line[..10], format!("{letter}---------"));
    }
    for (mode, text) in [
        (0o777, "-rwxrwxrwx"),
        (0o400, "-r--------"),
        (0o200, "--w-------"),
        (0o100, "---x------"),
        (0o040, "----r-----"),
        (0o020, "-----w----"),
        (0o010, "------x---"),
        (0o004, "-------r--"),
        (0o002, "--------w-"),
        (0o001, "---------x"),
        (0o7000, "----------"),
    ] {
        let line = format_ls_line(&record("x", FileType::File, mode));
        assert_eq!(&line[..10], text);
    }
}

#[test]
fn listing_is_in_order_of_the_names() {
    let lines = format_ls(vec![
        record("b", FileType::File, 0),
        record("a", FileType::Dir, 0),
        record("c", FileType::File, 0),
    ]);
    assert_eq!(lines.len(), 3);
    assert!(lines[0].ends_with(" a ab01"));
    assert!(lines[0].starts_with('d'));
    assert!(lines[1].ends_with(" b ab01"));
    assert!(lines[2].ends_with(" c ab01"));
    assert!(format_ls(Vec::new()).is_empty());
}

#[test]
fn request_for_a_file_of_a_backup_needs_host_number_and_share() {
    let h = || Some("pc-1".to_string());
    let s = || Some("/home".to_string());
    assert_eq!(cat_target(None, None, None), Ok(CatTarget::Direct));
    assert_eq!(
        cat_target(h(), Some(3), s()),
        Ok(CatTarget::InBackup { hostname: "pc-1".to_string(), number: 3, share: "/home".to_string() })
    );
    assert_eq!(cat_target(None, Some(3), s()), Err(CliError::NoHost));
    assert_eq!(cat_target(None, None, s()), Err(CliError::NoHost));
    assert_eq!(cat_target(None, Some(3), None), Err(CliError::NoHost));
    assert_eq!(cat_target(h(), None, s()), Err(CliError::NoBackupNumber));
    assert_eq!(cat_target(h(), None, None), Err(CliError::NoBackupNumber));
    assert_eq!(cat_target(h(), Some(3), None), Err(CliError::NoShare));
}

#[test]
fn digest_of_the_one_file_found() {
    let f = record("x", FileType::File, 0);
    assert_eq!(digest_to_cat(&vec![f.clone()]), Ok("ab01".to_string()));
    assert_eq!(digest_to_cat(&vec![]), Err(CliError::NotOneFile));
    assert_eq!(digest_to_cat(&vec![f.clone(), f.clone()]), Err(CliError::NotOneFile));
    let none = FileAttributes { bpc_digest: BpcDigest { len: 0, digest: vec![] }, ..f };
    assert_eq!(digest_to_cat(&vec![none]), Err(CliError::NoHash));
}

#[test]
fn messages_of_failures() {
    assert_eq!(CliError::NoHost.message(), "No host specified");
    assert_eq!(CliError::NoBackupNumber.message(), "No backup number specified");
    assert_eq!(CliError::NoShare.message(), "No share specified");
    assert_eq!(CliError::NoHash.message(), "No hash found");
    assert_eq!(CliError::NotOneFile.message(), "Multiple or no files found");
    let all = [
        PoolError::NotFound,
        PoolError::InvalidMagic,
        PoolError::CorruptData,
        PoolError::InvalidDigest,
        PoolError::Io,
        PoolError::Overflow,
    ];
    for (i, a) in all.iter().enumerate() {
        assert!(!a.message().is_empty());
        for b in &all[i + 1..] {
            assert_ne!(a.message(), b.message());
        }
    }
}

#[test]
fn hosts_are_the_directories() {
    let entries = vec![
        ("pc-2".to_string(), true),
        ("notes".to_string(), false),
        ("pc-1".to_string(), true),
    ];
    assert_eq!(host_names(&entries), vec!["pc-2".to_string(), "pc-1".to_string()]);
    assert!(host_names(&Vec::new()).is_empty());
}
