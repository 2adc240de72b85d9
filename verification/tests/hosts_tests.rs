use backuppc_pool_reader::hosts::{
    backups_to_fill, parse_backup_line, parse_backups, BackupInformation, Hosts,
};

fn line(num: u32, no_fill: u32) -> String {
    format!(
        "{num}\tincr\t1700000000\t1700000100\t12\t3456\t10\t3000\t2\t456\t0\t0\t0\t0\t3\t1500\t200\t{no_fill}\t-1\t1\trsync\t1\tutf8\t4.4.0\t98765"
    )
}

fn backup(num: u32, no_fill: u32) -> BackupInformation {
    parse_backup_line(&line(num, no_fill))
}

fn numbers(chain: &[BackupInformation]) -> Vec<u32> {
    chain.iter().map(|b| b.num).collect()
}

#[test]
fn manifest_line_has_its_fields_in_order() {
    let b = parse_backup_line(&line(7, 1));
    assert_eq!(b.num, 7);
    assert_eq!(b.backup_type, "incr");
    assert_eq!(b.start_time, 1_700_000_000);
    assert_eq!(b.end_time, 1_700_000_100);
    assert_eq!(b.n_files, 12);
    assert_eq!(b.size, 3456);
    assert_eq!(b.n_files_exist, 10);
    assert_eq!(b.size_exist, 3000);
    assert_eq!(b.n_files_new, 2);
    assert_eq!(b.size_new, 456);
    assert_eq!(b.xfer_errs, 0);
    assert_eq!(b.xfer_bad_file, 0);
    assert_eq!(b.xfer_bad_share, 0);
    assert_eq!(b.tar_errs, 0);
    assert_eq!(b.compress, 3);
    assert_eq!(b.size_exist_comp, 1500);
    assert_eq!(b.size_new_comp, 200);
    assert_eq!(b.no_fill, 1);
    assert_eq!(b.fill_from_num, -1);
    assert_eq!(b.mangle, 1);
    assert_eq!(b.xfer_method, "rsync");
    assert_eq!(b.level, 1);
    assert_eq!(b.charset, "utf8");
    assert_eq!(b.version, "4.4.0");
    assert_eq!(b.inode_last, 98765);
    assert_eq!(b.copy().num, 7);
    assert_eq!(b.copy().version, "4.4.0");
}

#[test]
fn manifest_fields_that_are_no_numbers_have_their_defaults() {
    let b = parse_backup_line("x\tfull\t-5\t\t4294967296\t18446744073709551616\t+7");
    assert_eq!(b.num, 0);
    assert_eq!(b.backup_type, "full");
    assert_eq!(b.start_time, 0);
    assert_eq!(b.end_time, 0);
    assert_eq!(b.n_files, 0);
    assert_eq!(b.size, 0);
    assert_eq!(b.n_files_exist, 7);
    // what the line does not have
    assert_eq!(b.no_fill, 0);
    assert_eq!(b.fill_from_num, -1);
    assert_eq!(b.xfer_method, "");
    assert_eq!(b.inode_last, 0);
    let b = parse_backup_line("");
    assert_eq!(b.num, 0);
    assert_eq!(b.backup_type, "");
    assert_eq!(b.fill_from_num, -1);
}

#[test]
fn manifest_numbers_at_the_limits() {
    let mut fields = vec!["4294967295".to_string(), "full".to_string()];
    fields.push("18446744073709551615".to_string());
    fields.push("00000000000000000000000042".to_string());
    for _ in 4..18 {
        fields.push("0".to_string());
    }
    let b = parse_backup_line(&fields.join("\t"));
    assert_eq!(b.num, u32::MAX);
    assert_eq!(b.start_time, u64::MAX);
    assert_eq!(b.end_time, 42);
    assert_eq!(b.fill_from_num, -1);
    for (text, value) in [
        ("2147483647", i32::MAX),
        ("-2147483648", i32::MIN),
        ("2147483648", -1),
        ("-2147483649", -1),
        ("+12", 12),
        ("-0", 0),
        ("-", -1),
        ("+", -1),
        ("1 ", -1),
        ("5", 5),
    ] {
        let mut f = fields.clone();
        f.push(text.to_string());
        assert_eq!(parse_backup_line(&f.join("\t")).fill_from_num, value, "{text:?}");
    }
}

#[test]
fn manifest_keeps_every_line() {
    let lines = vec![line(1, 0), "garbage".to_string(), line(3, 1), String::new()];
    let backups = parse_backups(&lines);
    assert_eq!(numbers(&backups), vec![1, 0, 3, 0]);
    assert_eq!(backups[1].backup_type, "");
    assert!(parse_backups(&Vec::new()).is_empty());
}

#[test]
fn fill_chain_ends_with_the_backup_asked_for() {
    let backups = vec![backup(1, 0), backup(2, 1), backup(3, 1), backup(4, 0), backup(5, 1)];
    assert_eq!(numbers(&backups_to_fill(&backups, 2)), vec![4, 3, 2]);
    assert_eq!(numbers(&backups_to_fill(&backups, 3)), vec![4, 3]);
    assert_eq!(numbers(&backups_to_fill(&backups, 4)), vec![4]);
    assert_eq!(numbers(&backups_to_fill(&backups, 1)), vec![1]);
    // no filled backup follows
    assert_eq!(numbers(&backups_to_fill(&backups, 5)), vec![5]);
    assert!(backups_to_fill(&backups, 6).is_empty());
    assert!(backups_to_fill(&Vec::new(), 1).is_empty());
    // a number that the manifest does not have
    let gaps = vec![backup(1, 0), backup(4, 1), backup(9, 0)];
    assert_eq!(numbers(&backups_to_fill(&gaps, 2)), vec![9, 4]);
}

#[test]
fn fill_chain_of_an_unfilled_backup_without_a_later_filled_one() {
    // backup 3 is not filled, backup 2 before it is: only backups numbered 3
    // or higher are read for the view of backup 3
    let backups = vec![backup(2, 0), backup(3, 1)];
    assert_eq!(numbers(&backups_to_fill(&backups, 3)), vec![3]);
    assert_eq!(numbers(&backups_to_fill(&backups, 2)), vec![2]);
}

#[test]
fn fill_chain_rests_on_the_next_filled_backup() {
    let backups = vec![backup(2, 1), backup(3, 0)];
    assert_eq!(numbers(&backups_to_fill(&backups, 2)), vec![3, 2]);
}

#[test]
fn paths_of_the_hosts_of_a_pool() {
    let hosts = Hosts::new("/var/lib/backuppc");
    assert_eq!(hosts.hosts_dir(), "/var/lib/backuppc/pc");
    assert_eq!(hosts.backups_file("pc-1"), "/var/lib/backuppc/pc/pc-1/backups");
}
