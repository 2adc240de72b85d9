//! Hosts, the manifest of their backups, and the chain of backups behind
//! the view of one backup.
use vstd::prelude::*;
use crate::error::PoolError;
use crate::text::{
    parse_decimal, parse_decimal_i32, parse_signed, parse_unsigned, push_text, split, split_on,
    string_of, views,
};

verus! {

/// One line of a host's manifest of backups.
#[derive(Debug, Clone)]
pub struct BackupInformation {
    pub num: u32,
    pub backup_type: String,
    pub start_time: u64,
    pub end_time: u64,
    pub n_files: u32,
    pub size: u64,
    pub n_files_exist: u32,
    pub size_exist: u64,
    pub n_files_new: u32,
    pub size_new: u64,
    pub xfer_errs: u32,
    pub xfer_bad_file: u32,
    pub xfer_bad_share: u32,
    pub tar_errs: u32,
    pub compress: u32,
    pub size_exist_comp: u64,
    pub size_new_comp: u64,
    pub no_fill: u32,
    pub fill_from_num: i32,
    pub mangle: u64,
    pub xfer_method: String,
    pub level: u32,
    pub charset: String,
    pub version: String,
    pub inode_last: u64,
}

/// One line of a manifest as a value.
pub struct BackupView {
    pub num: u32,
    pub backup_type: Seq<char>,
    pub start_time: u64,
    pub end_time: u64,
    pub n_files: u32,
    pub size: u64,
    pub n_files_exist: u32,
    pub size_exist: u64,
    pub n_files_new: u32,
    pub size_new: u64,
    pub xfer_errs: u32,
    pub xfer_bad_file: u32,
    pub xfer_bad_share: u32,
    pub tar_errs: u32,
    pub compress: u32,
    pub size_exist_comp: u64,
    pub size_new_comp: u64,
    pub no_fill: u32,
    pub fill_from_num: i32,
    pub mangle: u64,
    pub xfer_method: Seq<char>,
    pub level: u32,
    pub charset: Seq<char>,
    pub version: Seq<char>,
    pub inode_last: u64,
}

impl View for BackupInformation {
    type V = BackupView;

    open spec fn view(&self) -> BackupView {
        BackupView {
            num: self.num,
            backup_type: self.backup_type@,
            start_time: self.start_time,
            end_time: self.end_time,
            n_files: self.n_files,
            size: self.size,
            n_files_exist: self.n_files_exist,
            size_exist: self.size_exist,
            n_files_new: self.n_files_new,
            size_new: self.size_new,
            xfer_errs: self.xfer_errs,
            xfer_bad_file: self.xfer_bad_file,
            xfer_bad_share: self.xfer_bad_share,
            tar_errs: self.tar_errs,
            compress: self.compress,
            size_exist_comp: self.size_exist_comp,
            size_new_comp: self.size_new_comp,
            no_fill: self.no_fill,
            fill_from_num: self.fill_from_num,
            mangle: self.mangle,
            xfer_method: self.xfer_method@,
            level: self.level,
            charset: self.charset@,
            version: self.version@,
            inode_last: self.inode_last,
        }
    }
}

/// The backups of a vector as values.
pub open spec fn backup_views(v: Seq<BackupInformation>) -> Seq<BackupView> {
    Seq::new(v.len(), |i: int| v[i]@)
}

/// The `i`-th field of a line; empty where the line has fewer fields.
pub open spec fn text_field(fields: Seq<Seq<char>>, i: int) -> Seq<char> {
    if i < fields.len() {
        fields[i]
    } else {
        Seq::<char>::empty()
    }
}

/// The `i`-th field as a number of 32 bits; zero where it is none.
pub open spec fn u32_field(fields: Seq<Seq<char>>, i: int) -> u32 {
    match parse_unsigned(text_field(fields, i), u32::MAX as nat) {
        Some(v) => v as u32,
        None => 0,
    }
}

/// The `i`-th field as a number of 64 bits; zero where it is none.
pub open spec fn u64_field(fields: Seq<Seq<char>>, i: int) -> u64 {
    match parse_unsigned(text_field(fields, i), u64::MAX as nat) {
        Some(v) => v as u64,
        None => 0,
    }
}

/// The `i`-th field as a signed number of 32 bits; minus one where it is
/// none.
pub open spec fn i32_field(fields: Seq<Seq<char>>, i: int) -> i32 {
    match parse_signed(text_field(fields, i), i32::MIN as int, i32::MAX as int) {
        Some(v) => v as i32,
        None => -1i32,
    }
}

/// What a line of the manifest says: its fields between tabs, in their
/// order. A field that is missing or malformed has its default.
pub open spec fn backup_of_line(line: Seq<char>) -> BackupView {
    let f = split_on(line, '\t');
    BackupView {
        num: u32_field(f, 0),
        backup_type: text_field(f, 1),
        start_time: u64_field(f, 2),
        end_time: u64_field(f, 3),
        n_files: u32_field(f, 4),
        size: u64_field(f, 5),
        n_files_exist: u32_field(f, 6),
        size_exist: u64_field(f, 7),
        n_files_new: u32_field(f, 8),
        size_new: u64_field(f, 9),
        xfer_errs: u32_field(f, 10),
        xfer_bad_file: u32_field(f, 11),
        xfer_bad_share: u32_field(f, 12),
        tar_errs: u32_field(f, 13),
        compress: u32_field(f, 14),
        size_exist_comp: u64_field(f, 15),
        size_new_comp: u64_field(f, 16),
        no_fill: u32_field(f, 17),
        fill_from_num: i32_field(f, 18),
        mangle: u64_field(f, 19),
        xfer_method: text_field(f, 20),
        level: u32_field(f, 21),
        charset: text_field(f, 22),
        version: text_field(f, 23),
        inode_last: u64_field(f, 24),
    }
}

/// One backup for each line, in the order of the lines.
pub open spec fn backups_of_lines(lines: Seq<Seq<char>>) -> Seq<BackupView> {
    Seq::new(lines.len(), |i: int| backup_of_line(lines[i]))
}

/// The `i`-th field of a line as text.
fn text_at(fields: &Vec<String>, i: usize) -> (r: String)
    ensures
        r@ == text_field(views(fields@), i as int),
{
    if i < fields.len() {
        fields[i].clone()
    } else {
        String::new()
    }
}

/// The `i`-th field of a line as a number of 32 bits.
fn u32_at(fields: &Vec<String>, i: usize) -> (r: u32)
    ensures
        r == u32_field(views(fields@), i as int),
{
    if i < fields.len() {
        match parse_decimal(fields[i].as_str(), 0xffff_ffff) {
            Some(v) => v as u32,
            None => 0,
        }
    } else {
        0
    }
}

/// The `i`-th field of a line as a number of 64 bits.
fn u64_at(fields: &Vec<String>, i: usize) -> (r: u64)
    ensures
        r == u64_field(views(fields@), i as int),
{
    if i < fields.len() {
        match parse_decimal(fields[i].as_str(), u64::MAX) {
            Some(v) => v,
            None => 0,
        }
    } else {
        0
    }
}

/// The `i`-th field of a line as a signed number of 32 bits.
fn i32_at(fields: &Vec<String>, i: usize) -> (r: i32)
    ensures
        r == i32_field(views(fields@), i as int),
{
    if i < fields.len() {
        match parse_decimal_i32(fields[i].as_str()) {
            Some(v) => v,
            None => -1,
        }
    } else {
        -1
    }
}

/// Reads one line of a manifest.
pub fn parse_backup_line(line: &str) -> (b: BackupInformation)
    ensures
        b@ == backup_of_line(line@),
{
    let f = split(line, '\t');
    BackupInformation {
        num: u32_at(&f, 0),
        backup_type: text_at(&f, 1),
        start_time: u64_at(&f, 2),
        end_time: u64_at(&f, 3),
        n_files: u32_at(&f, 4),
        size: u64_at(&f, 5),
        n_files_exist: u32_at(&f, 6),
        size_exist: u64_at(&f, 7),
        n_files_new: u32_at(&f, 8),
        size_new: u64_at(&f, 9),
        xfer_errs: u32_at(&f, 10),
        xfer_bad_file: u32_at(&f, 11),
        xfer_bad_share: u32_at(&f, 12),
        tar_errs: u32_at(&f, 13),
        compress: u32_at(&f, 14),
        size_exist_comp: u64_at(&f, 15),
        size_new_comp: u64_at(&f, 16),
        no_fill: u32_at(&f, 17),
        fill_from_num: i32_at(&f, 18),
        mangle: u64_at(&f, 19),
        xfer_method: text_at(&f, 20),
        level: u32_at(&f, 21),
        charset: text_at(&f, 22),
        version: text_at(&f, 23),
        inode_last: u64_at(&f, 24),
    }
}

/// Reads a manifest, one backup for each of its lines. No line is dropped.
pub fn parse_backups(lines: &Vec<String>) -> (backups: Vec<BackupInformation>)
    ensures
        backup_views(backups@) == backups_of_lines(views(lines@)),
{
    let mut backups: Vec<BackupInformation> = Vec::new();
    let mut i: usize = 0;
    while i < lines.len()
        invariant
            i <= lines.len(),
            backup_views(backups@) == backups_of_lines(views(lines@)).take(i as int),
        decreases lines.len() - i,
    {
        let ghost before = backup_views(backups@);
        let b = parse_backup_line(lines[i].as_str());
        backups.push(b);
        assert(backup_views(backups@) == before.push(backup_of_line(lines@[i as int]@)));
        assert(backups_of_lines(views(lines@)).take(i + 1) == backups_of_lines(
            views(lines@),
        ).take(i as int).push(backup_of_line(lines@[i as int]@)));
        i += 1;
    }
    assert(backups_of_lines(views(lines@)).take(i as int) == backups_of_lines(views(lines@)));
    backups
}

impl BackupInformation {
    /// A copy of this backup.
    pub fn copy(&self) -> (r: BackupInformation)
        ensures
            r@ == self@,
    {
        BackupInformation {
            num: self.num,
            backup_type: self.backup_type.clone(),
            start_time: self.start_time,
            end_time: self.end_time,
            n_files: self.n_files,
            size: self.size,
            n_files_exist: self.n_files_exist,
            size_exist: self.size_exist,
            n_files_new: self.n_files_new,
            size_new: self.size_new,
            xfer_errs: self.xfer_errs,
            xfer_bad_file: self.xfer_bad_file,
            xfer_bad_share: self.xfer_bad_share,
            tar_errs: self.tar_errs,
            compress: self.compress,
            size_exist_comp: self.size_exist_comp,
            size_new_comp: self.size_new_comp,
            no_fill: self.no_fill,
            fill_from_num: self.fill_from_num,
            mangle: self.mangle,
            xfer_method: self.xfer_method.clone(),
            level: self.level,
            charset: self.charset.clone(),
            version: self.version.clone(),
            inode_last: self.inode_last,
        }
    }
}

/// The backups numbered `number` or higher, in the order of the manifest, up
/// to and with the first that is filled.
pub open spec fn up_to_filled(backups: Seq<BackupView>, number: u32) -> Seq<BackupView>
    decreases backups.len(),
{
    if backups.len() == 0 {
        Seq::<BackupView>::empty()
    } else if backups[0].num < number {
        up_to_filled(backups.skip(1), number)
    } else if backups[0].no_fill == 0 {
        seq![backups[0]]
    } else {
        seq![backups[0]] + up_to_filled(backups.skip(1), number)
    }
}

/// The backups to read for the view of backup `number`, in the order in
/// which to lay them over one another: the filled backup that the view
/// rests on first, the backup asked for last.
pub open spec fn fill_chain(backups: Seq<BackupView>, number: u32) -> Seq<BackupView> {
    up_to_filled(backups, number).reverse()
}

/// Of the backups up to the first filled one, each is numbered `number` or
/// higher, and none but the last is filled.
proof fn lemma_up_to_filled(backups: Seq<BackupView>, number: u32)
    ensures
        forall|i: int|
            0 <= i < up_to_filled(backups, number).len() ==> (#[trigger] up_to_filled(
                backups,
                number,
            )[i]).num >= number && backups.contains(up_to_filled(backups, number)[i]),
        forall|i: int|
            0 <= i < up_to_filled(backups, number).len() - 1 ==> (#[trigger] up_to_filled(
                backups,
                number,
            )[i]).no_fill > 0,
    decreases backups.len(),
{
    if backups.len() > 0 {
        let rest = backups.skip(1);
        lemma_up_to_filled(rest, number);
        let found = up_to_filled(backups, number);
        let below = up_to_filled(rest, number);
        assert forall|i: int| 0 <= i < found.len() implies (#[trigger] found[i]).num >= number
            && backups.contains(found[i]) by {
            if backups[0].num >= number && i == 0 {
                assert(found[0] == backups[0]);
            } else {
                let j = if backups[0].num < number {
                    i
                } else {
                    i - 1
                };
                assert(found[i] == below[j]);
                assert(rest.contains(below[j]));
                let k = choose|k: int| 0 <= k < rest.len() && rest[k] == below[j];
                assert(backups[k + 1] == below[j]);
            }
        }
        assert forall|i: int| 0 <= i < found.len() - 1 implies (#[trigger] found[i]).no_fill
            > 0 by {
            if backups[0].num >= number && i > 0 {
                assert(found[i] == below[i - 1]);
            } else if backups[0].num < number {
                assert(found[i] == below[i]);
            }
        }
    }
}

/// Every backup of a chain is a backup of the manifest numbered `number` or
/// higher, and none but the first of the chain is filled.
pub proof fn lemma_fill_chain(backups: Seq<BackupView>, number: u32)
    ensures
        forall|i: int|
            0 <= i < fill_chain(backups, number).len() ==> (#[trigger] fill_chain(
                backups,
                number,
            )[i]).num >= number && backups.contains(fill_chain(backups, number)[i]),
        forall|i: int|
            1 <= i < fill_chain(backups, number).len() ==> (#[trigger] fill_chain(
                backups,
                number,
            )[i]).no_fill > 0,
{
    lemma_up_to_filled(backups, number);
    let found = up_to_filled(backups, number);
    let chain = fill_chain(backups, number);
    assert forall|i: int| 0 <= i < chain.len() implies (#[trigger] chain[i]).num >= number
        && backups.contains(chain[i]) by {
        assert(chain[i] == found[found.len() - 1 - i]);
    }
    assert forall|i: int| 1 <= i < chain.len() implies (#[trigger] chain[i]).no_fill > 0 by {
        assert(chain[i] == found[found.len() - 1 - i]);
    }
}

/// Picks from a manifest the backups to read for the view of one backup.
pub fn backups_to_fill(backups: &Vec<BackupInformation>, backup_number: u32) -> (chain: Vec<
    BackupInformation,
>)
    ensures
        backup_views(chain@) == fill_chain(backup_views(backups@), backup_number),
{
    let ghost all = backup_views(backups@);
    let mut found: Vec<BackupInformation> = Vec::new();
    let mut i: usize = 0;
    assert(all.skip(0) == all);
    while i < backups.len()
        invariant_except_break
            up_to_filled(all, backup_number) == backup_views(found@) + up_to_filled(
                all.skip(i as int),
                backup_number,
            ),
        invariant
            i <= backups.len(),
            all == backup_views(backups@),
        ensures
            up_to_filled(all, backup_number) == backup_views(found@),
        decreases backups.len() - i,
    {
        let ghost before = backup_views(found@);
        let ghost rest = all.skip(i as int);
        assert(rest[0] == backups@[i as int]@);
        assert(rest.skip(1) == all.skip(i + 1));
        if backups[i].num >= backup_number {
            found.push(backups[i].copy());
            assert(backup_views(found@) == before.push(rest[0]));
            if backups[i].no_fill == 0 {
                assert(before + seq![rest[0]] == before.push(rest[0]));
                break;
            }
            assert(before + (seq![rest[0]] + up_to_filled(rest.skip(1), backup_number))
                == before.push(rest[0]) + up_to_filled(rest.skip(1), backup_number));
        }
        i += 1;
        if i == backups.len() {
            assert(backup_views(found@) + Seq::<BackupView>::empty() == backup_views(found@));
        }
    }
    let mut chain: Vec<BackupInformation> = Vec::new();
    let n = found.len();
    let mut k: usize = 0;
    while k < n
        invariant
            n == found.len(),
            k <= n,
            chain.len() == k,
            forall|j: int| 0 <= j < k ==> (#[trigger] chain@[j])@ == found@[n - 1 - j]@,
        decreases n - k,
    {
        chain.push(found[n - 1 - k].copy());
        k += 1;
    }
    assert(backup_views(chain@) =~= backup_views(found@).reverse());
    chain
}

/// What the view reads of hosts and their backups.
pub trait HostsTrait: Send + Sync {
    /// The names of the hosts.
    fn list_hosts(&self) -> Result<Vec<String>, PoolError>;

    /// The backups of one host, in the order of its manifest.
    fn list_backups(&self, hostname: &str) -> Result<Vec<BackupInformation>, PoolError>;

    /// The backups to read for the view of one backup of one host.
    fn list_backups_to_fill(&self, hostname: &str, backup_number: u32) -> Vec<BackupInformation>;
}

/// Where the hosts of a pool are found.
pub struct Hosts {
    topdir: String,
}

impl Hosts {
    /// The hosts of the pool under `topdir`.
    pub fn new(topdir: &str) -> (h: Self)
        ensures
            h.topdir()@ == topdir@,
    {
        Hosts { topdir: topdir.to_owned() }
    }

    /// The directory of the pool.
    pub closed spec fn topdir(&self) -> String {
        self.topdir
    }

    /// The directory that holds one directory for each host.
    pub fn hosts_dir(&self) -> (path: String)
        ensures
            path@ == self.topdir()@ + "/pc"@,
    {
        let mut out: Vec<char> = Vec::new();
        push_text(&mut out, self.topdir.as_str());
        push_text(&mut out, "/pc");
        string_of(&out)
    }

    /// The manifest of the backups of one host.
    pub fn backups_file(&self, hostname: &str) -> (path: String)
        ensures
            path@ == self.topdir()@ + "/pc/"@ + hostname@ + "/backups"@,
    {
        let mut out: Vec<char> = Vec::new();
        push_text(&mut out, self.topdir.as_str());
        push_text(&mut out, "/pc/");
        push_text(&mut out, hostname);
        push_text(&mut out, "/backups");
        string_of(&out)
    }
}

/// The names of the entries that are directories, in their order.
pub open spec fn directories(entries: Seq<(String, bool)>) -> Seq<Seq<char>>
    decreases entries.len(),
{
    if entries.len() == 0 {
        Seq::<Seq<char>>::empty()
    } else if entries.last().1 {
        directories(entries.drop_last()).push(entries.last().0@)
    } else {
        directories(entries.drop_last())
    }
}

/// The hosts of a pool, from the entries of the directory of the hosts,
/// each with its name and whether it is a directory: the names of the
/// directories, in the order of the entries.
pub fn host_names(entries: &Vec<(String, bool)>) -> (hosts: Vec<String>)
    ensures
        views(hosts@) == directories(entries@),
{
    let mut hosts: Vec<String> = Vec::new();
    let mut i: usize = 0;
    assert(entries@.take(0) == Seq::<(String, bool)>::empty());
    while i < entries.len()
        invariant
            i <= entries.len(),
            views(hosts@) == directories(entries@.take(i as int)),
        decreases entries.len() - i,
    {
        let ghost before = views(hosts@);
        proof {
            assert(entries@.take(i + 1).drop_last() == entries@.take(i as int));
            assert(entries@.take(i + 1).last() == entries@[i as int]);
        }
        if entries[i].1 {
            hosts.push(entries[i].0.clone());
            assert(views(hosts@) == before.push(entries@[i as int].0@));
        }
        i += 1;
    }
    assert(entries@.take(i as int) == entries@);
    hosts
}

} // verus!
