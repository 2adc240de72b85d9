//! The pool as one tree of hosts, backups, shares and directories.
use vstd::prelude::*;
use vstd::slice::slice_subrange;
use crate::attribute_file::SearchTrait;
use crate::cache::{
    every, key_index, lemma_key_index, lemma_put_keeps, lemma_put_then_lookup,
    lemma_touched_keeps, listing_cache_entries, listing_cache_get, listing_cache_limit,
    listing_cache_new, listing_cache_put, lookup, touched, ListingCache, ListingEntry,
};
use crate::decode_attribut::{plain_dir, records, FileAttributes, FileRecord, FileType};
use crate::error::PoolError;
use crate::hosts::{backup_views, BackupInformation, BackupView, HostsTrait};
use crate::merge::{
    distinct_names, find_name, is_linked, listing_views, merge_listings, merged, position,
    resolve_link,
};
use crate::pool::locatable;
use crate::shares::{non_empty, select_share};
use crate::sorting::{lemma_sorted_by_name, names_ascend, sort_by_name, sorted_by_name};
use crate::text::{
    decimal, join, join_with, parse_decimal, parse_unsigned, push_text, string_of, views,
};
use crate::util::{hex_string, vec_to_hex_string};

verus! {

/// The number of listings that a view keeps unless it is made for another
/// number.
pub const CACHE_SIZE: usize = 1000;

/// The digest of empty content.
pub open spec fn empty_md5() -> Seq<u8> {
    seq![
        0xd4u8,
        0x1d,
        0x8c,
        0xd9,
        0x8f,
        0x00,
        0xb2,
        0x04,
        0xe9,
        0x80,
        0x09,
        0x98,
        0xec,
        0xf8,
        0x42,
        0x7e,
    ]
}

/// Where the content of a file is found.
#[derive(Debug, PartialEq, Eq, Clone)]
pub enum FileSource {
    /// The file is empty.
    Empty,
    /// The content stands in the pool under this digest.
    Pool(Vec<u8>),
}

/// Where the content of a file is found, as a value.
pub enum FileSourceView {
    Empty,
    Pool(Seq<u8>),
}

impl View for FileSource {
    type V = FileSourceView;

    open spec fn view(&self) -> FileSourceView {
        match self {
            FileSource::Empty => FileSourceView::Empty,
            FileSource::Pool(d) => FileSourceView::Pool(d@),
        }
    }
}

/// Where the content of a record is found: in the pool under the record's
/// digest where that is longer than two bytes and is not the digest of empty
/// content; otherwise the file is empty.
pub open spec fn content_of(r: FileRecord) -> FileSourceView {
    if r.digest.len() > 2 && r.digest != empty_md5() {
        FileSourceView::Pool(r.digest)
    } else {
        FileSourceView::Empty
    }
}

/// The texts of a path as values.
pub open spec fn strs(path: Seq<&str>) -> Seq<Seq<char>> {
    Seq::new(path.len(), |i: int| path[i]@)
}

/// The key under which the listing of a path is kept: a slash, then its
/// components that are not empty, with slashes between them.
pub open spec fn list_key(path: Seq<Seq<char>>) -> Seq<char> {
    seq!['/'] + join_with(non_empty(path), '/')
}

/// One directory for each name, in the order of the names.
pub open spec fn dirs_of(names: Seq<Seq<char>>) -> Seq<FileRecord> {
    Seq::new(names.len(), |i: int| plain_dir(names[i], 0))
}

/// One directory for each backup, in the order of the backups.
pub open spec fn dirs_of_backups(backups: Seq<BackupView>) -> Seq<FileRecord> {
    Seq::new(backups.len(), |i: int| plain_dir(decimal(backups[i].num as nat), backups[i].start_time))
}

/// The number of a backup as the path names it; zero where the text is no
/// number of 32 bits.
pub open spec fn number_of(text: Seq<char>) -> u32 {
    match parse_unsigned(text, u32::MAX as nat) {
        Some(n) => n as u32,
        None => 0,
    }
}

/// The part of an inode number that names the directory of its table.
pub open spec fn inode_dir(inode: u64) -> u8 {
    ((inode >> 17) & 0x7f) as u8
}

/// The part of an inode number that names the file of its table.
pub open spec fn inode_file(inode: u64) -> u8 {
    ((inode >> 10) & 0x7f) as u8
}

/// The directory, below that of a backup, of the table of an inode.
pub open spec fn inode_attrib_path(inode: u64) -> Seq<char> {
    "inode/"@ + hex_string(seq![inode_dir(inode)])
}

/// The start of the name of the table of an inode.
pub open spec fn inode_attrib_file(inode: u64) -> Seq<char> {
    "attrib"@ + hex_string(seq![inode_file(inode)]) + seq!['_']
}

/// The key under which the listing of the directory of a file is kept: that
/// of the path of the file without its last component.
pub open spec fn parent_key(path: Seq<Seq<char>>) -> Seq<char> {
    list_key(path.drop_last())
}

/// Whether the listing of an entry is in ascending order of its names.
pub open spec fn listing_ascends(entry: ListingEntry) -> bool {
    names_ascend(entry.1)
}

/// The number of a backup and the place of the table of an inode in that
/// backup, as six bytes: the four of the number, most significant first,
/// then the part of the inode that names the directory of the table and
/// the part that names its file.
pub open spec fn table_place(backup_number: u32, inode: u64) -> Seq<u8> {
    seq![
        (backup_number / 0x100_0000) as u8,
        (backup_number / 0x1_0000 % 0x100) as u8,
        (backup_number / 0x100 % 0x100) as u8,
        (backup_number % 0x100) as u8,
        inode_dir(inode),
        inode_file(inode),
    ]
}

/// The key under which the table of an inode of a backup of a host is kept:
/// a number sign, the place of the table in hexadecimal, then the host.
pub open spec fn inode_key(hostname: Seq<char>, backup_number: u32, inode: u64) -> Seq<char> {
    seq!['#'] + hex_string(table_place(backup_number, inode)) + hostname
}

/// The place of a table tells the number of the backup and the two parts of
/// the inode that name the table.
proof fn lemma_table_place(backup_number: u32, inode: u64)
    ensures
        table_place(backup_number, inode).len() == 6,
        backup_number == table_place(backup_number, inode)[0] * 0x100_0000 + table_place(
            backup_number,
            inode,
        )[1] * 0x1_0000 + table_place(backup_number, inode)[2] * 0x100 + table_place(
            backup_number,
            inode,
        )[3],
        table_place(backup_number, inode)[4] == inode_dir(inode),
        table_place(backup_number, inode)[5] == inode_file(inode),
{
}

/// The parts of the key of a table: the number sign, twelve hexadecimal
/// digits, the host.
proof fn lemma_inode_key_parts(hostname: Seq<char>, backup_number: u32, inode: u64)
    ensures
        inode_key(hostname, backup_number, inode)[0] == '#',
        inode_key(hostname, backup_number, inode).subrange(1, 13) == hex_string(
            table_place(backup_number, inode),
        ),
        inode_key(hostname, backup_number, inode).skip(13) == hostname,
{
    let place = table_place(backup_number, inode);
    let hex = hex_string(place);
    assert(hex.len() == 12);
    let key = inode_key(hostname, backup_number, inode);
    assert(key == (seq!['#'] + hex) + hostname);
    assert(key.subrange(1, 13) =~= hex);
    assert(key.skip(13) =~= hostname);
}

/// Tables are kept apart: two keys of tables are the same only for the
/// same host, the same backup and the same table. And no table is kept
/// under the key of a path.
pub proof fn lemma_inode_keys_apart(
    host1: Seq<char>,
    backup1: u32,
    inode1: u64,
    host2: Seq<char>,
    backup2: u32,
    inode2: u64,
    path: Seq<Seq<char>>,
)
    ensures
        inode_key(host1, backup1, inode1) == inode_key(host2, backup2, inode2) ==> host1 == host2
            && backup1 == backup2 && inode_dir(inode1) == inode_dir(inode2) && inode_file(inode1)
            == inode_file(inode2),
        inode_key(host1, backup1, inode1) != list_key(path),
{
    lemma_inode_key_parts(host1, backup1, inode1);
    lemma_inode_key_parts(host2, backup2, inode2);
    assert(list_key(path)[0] == '/');
    if inode_key(host1, backup1, inode1) == inode_key(host2, backup2, inode2) {
        let p1 = table_place(backup1, inode1);
        let p2 = table_place(backup2, inode2);
        crate::util::lemma_hex_round_trip(p1);
        crate::util::lemma_hex_round_trip(p2);
        assert(p1 == p2);
        lemma_table_place(backup1, inode1);
        lemma_table_place(backup2, inode2);
    }
}

/// Every listing of the entries is in ascending order of its names.
pub open spec fn listings_ascend(entries: Seq<ListingEntry>) -> bool {
    every(entries, |e: ListingEntry| listing_ascends(e))
}

/// Every record is a directory of which only the name and the age are
/// known.
pub open spec fn plain_dirs(s: Seq<FileRecord>) -> bool {
    forall|i: int| 0 <= i < s.len() ==> #[trigger] s[i] == plain_dir(s[i].name, s[i].mtime)
}

/// The names of the records of `files`.
pub open spec fn names_of(files: Seq<FileRecord>) -> Seq<Seq<char>> {
    Seq::new(files.len(), |i: int| files[i].name)
}

/// A path given as borrowed texts, as a vector of its own.
pub fn owned_path(path: &[&str]) -> (v: Vec<String>)
    ensures
        views(v@) == strs(path@),
{
    let mut v: Vec<String> = Vec::new();
    let mut i: usize = 0;
    while i < path.len()
        invariant
            i <= path.len(),
            views(v@) == strs(path@).take(i as int),
        decreases path.len() - i,
    {
        let ghost before = views(v@);
        v.push(path[i].to_owned());
        assert(views(v@) == before.push(path@[i as int]@));
        assert(strs(path@).take(i + 1) == strs(path@).take(i as int).push(path@[i as int]@));
        i += 1;
    }
    assert(strs(path@).take(i as int) == strs(path@));
    v
}

/// The key under which the listing of `path` is kept.
pub fn cache_key(path: &Vec<String>) -> (key: String)
    ensures
        key@ == list_key(views(path@)),
{
    let mut parts: Vec<String> = Vec::new();
    let mut i: usize = 0;
    assert(views(path@).take(0) == Seq::<Seq<char>>::empty());
    while i < path.len()
        invariant
            i <= path.len(),
            views(parts@) == non_empty(views(path@).take(i as int)),
        decreases path.len() - i,
    {
        let ghost before = views(parts@);
        proof {
            let now = views(path@).take(i + 1);
            assert(now.drop_last() == views(path@).take(i as int));
            assert(now.last() == path@[i as int]@);
        }
        if !path[i].as_str().is_empty() {
            parts.push(path[i].clone());
            assert(views(parts@) == before.push(path@[i as int]@));
        }
        i += 1;
    }
    assert(views(path@).take(i as int) == views(path@));
    let mut key: Vec<char> = Vec::new();
    key.push('/');
    push_text(&mut key, join(&parts, '/').as_str());
    string_of(&key)
}

/// The key under which the table of an inode of a backup of a host is kept.
pub fn table_key(hostname: &str, backup_number: u32, inode: u64) -> (key: String)
    ensures
        key@ == inode_key(hostname@, backup_number, inode),
{
    let dir = (inode >> 17) & 0x7f;
    let file = (inode >> 10) & 0x7f;
    assert(dir < 128 && file < 128) by (bit_vector)
        requires
            dir == (inode >> 17) & 0x7f,
            file == (inode >> 10) & 0x7f,
    ;
    let place: Vec<u8> = vec![
        (backup_number / 0x100_0000) as u8,
        (backup_number / 0x1_0000 % 0x100) as u8,
        (backup_number / 0x100 % 0x100) as u8,
        (backup_number % 0x100) as u8,
        dir as u8,
        file as u8,
    ];
    assert(place@ =~= table_place(backup_number, inode));
    let mut key: Vec<char> = Vec::new();
    key.push('#');
    push_text(&mut key, vec_to_hex_string(place.as_slice()).as_str());
    push_text(&mut key, hostname);
    string_of(&key)
}

/// The listing of the hosts: one directory for each.
pub fn host_dirs(hosts: Vec<String>) -> (dirs: Vec<FileAttributes>)
    ensures
        records(dirs@) == dirs_of(views(hosts@)),
        plain_dirs(records(dirs@)),
{
    let mut dirs: Vec<FileAttributes> = Vec::new();
    let mut i: usize = 0;
    while i < hosts.len()
        invariant
            i <= hosts.len(),
            records(dirs@) == dirs_of(views(hosts@)).take(i as int),
        decreases hosts.len() - i,
    {
        let ghost before = records(dirs@);
        dirs.push(FileAttributes::from_host(hosts[i].clone()));
        assert(records(dirs@) == before.push(plain_dir(hosts@[i as int]@, 0)));
        assert(dirs_of(views(hosts@)).take(i + 1) == dirs_of(views(hosts@)).take(i as int).push(
            plain_dir(hosts@[i as int]@, 0),
        ));
        i += 1;
    }
    assert(dirs_of(views(hosts@)).take(i as int) == dirs_of(views(hosts@)));
    dirs
}

/// One directory for each name: the directories that lead to shares.
pub fn dirs_named(names: Vec<String>) -> (dirs: Vec<FileAttributes>)
    ensures
        records(dirs@) == dirs_of(views(names@)),
        plain_dirs(records(dirs@)),
{
    let mut dirs: Vec<FileAttributes> = Vec::new();
    let mut i: usize = 0;
    while i < names.len()
        invariant
            i <= names.len(),
            records(dirs@) == dirs_of(views(names@)).take(i as int),
        decreases names.len() - i,
    {
        let ghost before = records(dirs@);
        dirs.push(FileAttributes::from_share(names[i].clone()));
        assert(records(dirs@) == before.push(plain_dir(names@[i as int]@, 0)));
        assert(dirs_of(views(names@)).take(i + 1) == dirs_of(views(names@)).take(i as int).push(
            plain_dir(names@[i as int]@, 0),
        ));
        i += 1;
    }
    assert(dirs_of(views(names@)).take(i as int) == dirs_of(views(names@)));
    dirs
}

/// The listing of a host, from what was read of its backups: one directory
/// for each backup. A host whose manifest is not found has no backups; any
/// other failure stays.
pub fn backup_dirs(backups: Result<Vec<BackupInformation>, PoolError>) -> (r: Result<
    Vec<FileAttributes>,
    PoolError,
>)
    ensures
        match backups {
            Ok(b) => r matches Ok(v) && records(v@) == dirs_of_backups(backup_views(b@)),
            Err(PoolError::NotFound) => r matches Ok(v) && v@.len() == 0,
            Err(e) => r == Err::<Vec<FileAttributes>, PoolError>(e),
        },
        r matches Ok(v) ==> plain_dirs(records(v@)),
{
    match backups {
        Ok(b) => {
            let mut dirs: Vec<FileAttributes> = Vec::new();
            let mut i: usize = 0;
            let ghost all = dirs_of_backups(backup_views(b@));
            while i < b.len()
                invariant
                    i <= b.len(),
                    all == dirs_of_backups(backup_views(b@)),
                    records(dirs@) == all.take(i as int),
                decreases b.len() - i,
            {
                let ghost before = records(dirs@);
                let d = FileAttributes::from_backup(&b[i]);
                dirs.push(d);
                assert(records(dirs@) == before.push(all[i as int]));
                assert(all.take(i + 1) == all.take(i as int).push(all[i as int]));
                i += 1;
            }
            assert(all.take(i as int) == all);
            Ok(dirs)
        },
        Err(PoolError::NotFound) => Ok(Vec::new()),
        Err(e) => Err(e),
    }
}

/// The number of a backup as a path names it.
pub fn backup_number_of(text: &str) -> (n: u32)
    ensures
        n == number_of(text@),
{
    match parse_decimal(text, 0xffff_ffff) {
        Some(n) => n as u32,
        None => 0,
    }
}

/// The names of the records of a listing.
pub fn names_in(files: &Vec<FileAttributes>) -> (names: Vec<String>)
    ensures
        views(names@) == names_of(records(files@)),
{
    let mut names: Vec<String> = Vec::new();
    let mut i: usize = 0;
    while i < files.len()
        invariant
            i <= files.len(),
            views(names@) == names_of(records(files@)).take(i as int),
        decreases files.len() - i,
    {
        let ghost before = views(names@);
        names.push(files[i].name.clone());
        assert(views(names@) == before.push(files@[i as int]@.name));
        assert(names_of(records(files@)).take(i + 1) == names_of(records(files@)).take(
            i as int,
        ).push(files@[i as int]@.name));
        i += 1;
    }
    assert(names_of(records(files@)).take(i as int) == names_of(records(files@)));
    names
}

/// The components of `path` from the `start`-th on, with slashes between
/// them.
fn path_from(path: &Vec<String>, start: usize) -> (tail: String)
    requires
        start <= path.len(),
    ensures
        tail@ == join_with(views(path@).skip(start as int), '/'),
{
    let mut parts: Vec<String> = Vec::new();
    let mut i: usize = start;
    while i < path.len()
        invariant
            start <= i <= path.len(),
            views(parts@) == views(path@).subrange(start as int, i as int),
        decreases path.len() - i,
    {
        let ghost before = views(parts@);
        parts.push(path[i].clone());
        assert(views(parts@) == before.push(path@[i as int]@));
        assert(views(path@).subrange(start as int, i + 1) == views(path@).subrange(
            start as int,
            i as int,
        ).push(path@[i as int]@));
        i += 1;
    }
    assert(views(path@).subrange(start as int, i as int) == views(path@).skip(start as int));
    join(&parts, '/')
}

/// The listing of a directory of a share: its files and the directories
/// that lead to shares below it, in ascending order of their names, a file
/// before a directory of the same name.
pub fn with_dirs(files: Vec<FileAttributes>, dirs: Vec<FileAttributes>) -> (all: Vec<
    FileAttributes,
>)
    ensures
        records(all@) == sorted_by_name(records(files@) + records(dirs@)),
        names_ascend(records(all@)),
{
    let mut both = files;
    let ghost first = records(both@);
    let mut i: usize = 0;
    while i < dirs.len()
        invariant
            i <= dirs.len(),
            records(both@) == first + records(dirs@).take(i as int),
        decreases dirs.len() - i,
    {
        let ghost before = records(both@);
        both.push(dirs[i].copy());
        assert(records(both@) == before.push(dirs@[i as int]@));
        assert(first + records(dirs@).take(i + 1) == (first + records(dirs@).take(i as int)).push(
            dirs@[i as int]@,
        ));
        i += 1;
    }
    assert(records(dirs@).take(i as int) == records(dirs@));
    proof {
        lemma_sorted_by_name(records(both@));
    }
    sort_by_name(both)
}

/// Where the content of a file is found.
pub fn content_source(file: &FileAttributes) -> (s: FileSource)
    ensures
        s@ == content_of(file@),
{
    let d = &file.bpc_digest.digest;
    if d.len() > 2 && !is_empty_md5(d) {
        FileSource::Pool(d.clone())
    } else {
        FileSource::Empty
    }
}

/// Whether `d` is the digest of empty content.
fn is_empty_md5(d: &Vec<u8>) -> (r: bool)
    ensures
        r == (d@ == empty_md5()),
{
    let r = d.len() == 16 && d[0] == 0xd4 && d[1] == 0x1d && d[2] == 0x8c && d[3] == 0xd9 && d[4]
        == 0x8f && d[5] == 0x00 && d[6] == 0xb2 && d[7] == 0x04 && d[8] == 0xe9 && d[9] == 0x80
        && d[10] == 0x09 && d[11] == 0x98 && d[12] == 0xec && d[13] == 0xf8 && d[14] == 0x42
        && d[15] == 0x7e;
    if r {
        assert(d@ =~= empty_md5());
    } else if d.len() == 16 {
        let ghost e = empty_md5();
        assert(e[0] == 0xd4 && e[1] == 0x1d && e[2] == 0x8c && e[3] == 0xd9 && e[4] == 0x8f
            && e[5] == 0x00 && e[6] == 0xb2 && e[7] == 0x04 && e[8] == 0xe9 && e[9] == 0x80
            && e[10] == 0x09 && e[11] == 0x98 && e[12] == 0xec && e[13] == 0xf8 && e[14] == 0x42
            && e[15] == 0x7e);
    }
    r
}

/// Where the content of the file called `name` of a listing is found. A
/// name that the listing does not hold fails with `NotFound`.
pub fn source_in(listing: &Vec<FileAttributes>, name: &str) -> (r: Result<FileSource, PoolError>)
    ensures
        match r {
            Ok(s) => position(records(listing@), name@) < listing.len() && s@ == content_of(
                records(listing@)[position(records(listing@), name@)],
            ),
            Err(e) => e == PoolError::NotFound && position(records(listing@), name@)
                == listing.len(),
        },
{
    match find_name(listing, name) {
        Some(i) => Ok(content_source(&listing[i])),
        None => Err(PoolError::NotFound),
    }
}

/// Of every record either the content is empty, and then no digest is
/// looked for in the pool, or it stands under a digest that can name a file
/// of the pool and is not the digest of empty content. A record with the
/// digest of empty content has empty content.
pub proof fn lemma_source_is_locatable(r: FileRecord)
    ensures
        content_of(r) matches FileSourceView::Pool(d) ==> d == r.digest && d != empty_md5()
            && locatable(d),
        r.digest == empty_md5() ==> content_of(r) == FileSourceView::Empty,
{
}

/// The directory, below that of a backup, of the table of `inode`.
pub fn inode_table_dir(inode: u64) -> (path: String)
    ensures
        path@ == inode_attrib_path(inode),
{
    let dir = (inode >> 17) & 0x7f;
    assert(dir < 128) by (bit_vector)
        requires
            dir == (inode >> 17) & 0x7f,
    ;
    let bytes = vec![dir as u8];
    assert(bytes@ == seq![inode_dir(inode)]);
    let mut out: Vec<char> = Vec::new();
    push_text(&mut out, "inode/");
    push_text(&mut out, vec_to_hex_string(bytes.as_slice()).as_str());
    string_of(&out)
}

/// The start of the name of the table of `inode`.
pub fn inode_table_file(inode: u64) -> (name: String)
    ensures
        name@ == inode_attrib_file(inode),
{
    let file = (inode >> 10) & 0x7f;
    assert(file < 128) by (bit_vector)
        requires
            file == (inode >> 10) & 0x7f,
    ;
    let bytes = vec![file as u8];
    assert(bytes@ == seq![inode_file(inode)]);
    let mut out: Vec<char> = Vec::new();
    push_text(&mut out, "attrib");
    push_text(&mut out, vec_to_hex_string(bytes.as_slice()).as_str());
    out.push('_');
    string_of(&out)
}

/// A view of the hosts, backups, shares and directories of a pool as one
/// tree, with the listings it has made kept for the next time.
pub struct BackupPC {
    topdir: String,
    hosts: Box<dyn HostsTrait>,
    search: Box<dyn SearchTrait>,
    cache: ListingCache,
}

impl BackupPC {
    /// Every listing that the view keeps is in ascending order of its names.
    pub closed spec fn wf(&self) -> bool {
        listings_ascend(listing_cache_entries(self.cache)) && listing_cache_limit(self.cache) > 0
    }

    /// The listing that the view keeps under `key`.
    pub closed spec fn cached(&self, key: Seq<char>) -> Option<Seq<FileRecord>> {
        lookup(listing_cache_entries(self.cache), key)
    }

    /// The directory of the pool.
    pub closed spec fn topdir(&self) -> Seq<char> {
        self.topdir@
    }

    /// A view of the pool under `topdir` that keeps up to `CACHE_SIZE`
    /// listings.
    pub fn new(topdir: &str, hosts: Box<dyn HostsTrait>, search: Box<dyn SearchTrait>) -> (v: Self)
        ensures
            v.wf(),
            v.topdir() == topdir@,
            forall|key: Seq<char>| v.cached(key) is None,
    {
        Self::new_with_capacity(topdir, hosts, search, CACHE_SIZE)
    }

    /// A view of the pool under `topdir` that keeps up to `capacity`
    /// listings.
    pub fn new_with_capacity(
        topdir: &str,
        hosts: Box<dyn HostsTrait>,
        search: Box<dyn SearchTrait>,
        capacity: usize,
    ) -> (v: Self)
        requires
            capacity > 0,
        ensures
            v.wf(),
            v.topdir() == topdir@,
            forall|key: Seq<char>| v.cached(key) is None,
    {
        BackupPC {
            topdir: topdir.to_owned(),
            hosts,
            search,
            cache: listing_cache_new(capacity),
        }
    }

    /// The directory of the pool.
    pub fn top(&self) -> (t: &str)
        ensures
            t@ == self.topdir(),
    {
        self.topdir.as_str()
    }

    /// The listing kept under `key`, if there is one.
    fn recall(&mut self, key: &str) -> (r: Option<Vec<FileAttributes>>)
        requires
            old(self).wf(),
        ensures
            final(self).wf(),
            final(self).topdir() == old(self).topdir(),
            match old(self).cached(key@) {
                Some(listing) => r matches Some(v) && records(v@) == listing && names_ascend(
                    listing,
                ) && final(self).cached(key@) == Some(listing),
                None => r is None,
            },
    {
        let ghost entries = listing_cache_entries(self.cache);
        proof {
            if lookup(entries, key@) is Some {
                let i = key_index(entries, key@);
                lemma_key_index(entries, key@);
                lemma_touched_keeps(entries, i, |e: ListingEntry| listing_ascends(e));
                assert(listing_ascends(entries[i]));
                assert(touched(entries, i)[0] == entries[i]);
                assert(key_index(touched(entries, i), key@) == 0);
            }
        }
        listing_cache_get(&mut self.cache, key)
    }

    /// Keeps a listing under `key`.
    fn keep(&mut self, key: String, listing: Vec<FileAttributes>)
        requires
            old(self).wf(),
            names_ascend(records(listing@)),
        ensures
            final(self).wf(),
            final(self).topdir() == old(self).topdir(),
            final(self).cached(key@) == Some(records(listing@)),
    {
        proof {
            lemma_put_keeps(
                listing_cache_entries(self.cache),
                listing_cache_limit(self.cache),
                key@,
                records(listing@),
                |e: ListingEntry| listing_ascends(e),
            );
            lemma_put_then_lookup(
                listing_cache_entries(self.cache),
                listing_cache_limit(self.cache),
                key@,
                records(listing@),
            );
        }
        listing_cache_put(&mut self.cache, key, listing);
    }

    /// The table, in a backup of a host, of the inodes that share a table
    /// with `inode`, in ascending order of its names. A table that the view
    /// keeps for that host and backup is given as it is kept; any other is
    /// read, sorted and kept.
    fn list_file_from_inode(&mut self, hostname: &str, backup_number: u32, inode: u64) -> (r:
        Result<Vec<FileAttributes>, PoolError>)
        requires
            old(self).wf(),
        ensures
            final(self).wf(),
            final(self).topdir() == old(self).topdir(),
            old(self).cached(inode_key(hostname@, backup_number, inode)) matches Some(table) ==> (
            r matches Ok(v) && records(v@) == table),
            r matches Ok(v) ==> names_ascend(records(v@)) && final(self).cached(
                inode_key(hostname@, backup_number, inode),
            ) == Some(records(v@)),
    {
        let attrib_path = inode_table_dir(inode);
        let attrib_file = inode_table_file(inode);
        let key = table_key(hostname, backup_number, inode);
        match self.recall(key.as_str()) {
            Some(listing) => {
                return Ok(listing);
            },
            None => {},
        }
        let found = self.search.list_attributes(
            hostname,
            backup_number,
            attrib_path.as_str(),
            attrib_file.as_str(),
        )?;
        proof {
            lemma_sorted_by_name(records(found@));
        }
        let table = sort_by_name(found);
        let copy = copy_listing(&table);
        self.keep(key, copy);
        Ok(table)
    }

    /// What is seen of a directory in a backup: the listings of the backups
    /// of its chain laid over one another, each linked record with the
    /// digest of its inode. No two records of the result have the same name.
    fn list_file_from_dir(
        &mut self,
        hostname: &str,
        backup_number: u32,
        share: Option<&str>,
        filename: Option<&str>,
    ) -> (r: Result<Vec<FileAttributes>, PoolError>)
        requires
            old(self).wf(),
        ensures
            final(self).wf(),
            final(self).topdir() == old(self).topdir(),
            r matches Ok(v) ==> distinct_names(records(v@)) && exists|
                listings: Seq<Seq<FileRecord>>,
            | records(v@) == #[trigger] merged(listings),
    {
        let chain = self.hosts.list_backups_to_fill(hostname, backup_number);
        let mut listings: Vec<Vec<FileAttributes>> = Vec::new();
        let mut i: usize = 0;
        while i < chain.len()
            invariant
                i <= chain.len(),
                self.wf(),
                self.topdir() == old(self).topdir(),
            decreases chain.len() - i,
        {
            let number = chain[i].num;
            let listing = self.search.list_file_from_dir(hostname, number, share, filename)?;
            let mut resolved: Vec<FileAttributes> = Vec::new();
            let mut k: usize = 0;
            while k < listing.len()
                invariant
                    k <= listing.len(),
                    self.wf(),
                    self.topdir() == old(self).topdir(),
                decreases listing.len() - k,
            {
                let file = listing[k].copy();
                if needs_table(&file) {
                    let table = self.list_file_from_inode(hostname, number, file.inode)?;
                    resolved.push(resolve_link(file, &table));
                } else {
                    resolved.push(file);
                }
                k += 1;
            }
            listings.push(resolved);
            i += 1;
        }
        let files = merge_listings(listings);
        assert(records(files@) == merged(listing_views(listings@)));
        Ok(files)
    }

    /// The listing of a path, made anew. The empty path lists the hosts, a
    /// path of one component the backups of a host, a longer path a
    /// directory of a backup: the directories that lead to shares below the
    /// path and, where the path lies in a share, what is seen there of the
    /// files of the share, in ascending order of the names. So a listing
    /// holds nothing but directories of which only name and age are known,
    /// or is in ascending order of its names.
    pub fn direct_list(&mut self, path: &[&str]) -> (r: Result<Vec<FileAttributes>, PoolError>)
        requires
            old(self).wf(),
        ensures
            final(self).wf(),
            final(self).topdir() == old(self).topdir(),
            path@.len() <= 1 ==> (r matches Ok(v) ==> plain_dirs(records(v@))),
            r matches Ok(v) ==> plain_dirs(records(v@)) || names_ascend(records(v@)),
    {
        let path = owned_path(path);
        if path.len() == 0 {
            let hosts = self.hosts.list_hosts()?;
            return Ok(host_dirs(hosts));
        }
        if path.len() == 1 {
            let backups = self.hosts.list_backups(path[0].as_str());
            return backup_dirs(backups);
        }
        let number = backup_number_of(path[1].as_str());
        let shares = self.list_file_from_dir(path[0].as_str(), number, None, None)?;
        let names = names_in(&shares);
        let below = tail_of(&path, 2);
        let (leading, selected, share_size) = select_share(&names, &below);
        let dirs = dirs_named(leading);
        match selected {
            None => Ok(dirs),
            Some(share) => {
                let inside = path_from(&below, share_size);
                let files = self.list_file_from_dir(
                    path[0].as_str(),
                    number,
                    Some(share.as_str()),
                    Some(inside.as_str()),
                )?;
                Ok(with_dirs(files, dirs))
            },
        }
    }

    /// The listing of a path, in ascending order of its names. A listing
    /// that the view keeps is given as it is kept; any other is made anew
    /// and kept.
    pub fn list(&mut self, path: &[&str]) -> (r: Result<Vec<FileAttributes>, PoolError>)
        requires
            old(self).wf(),
        ensures
            final(self).wf(),
            final(self).topdir() == old(self).topdir(),
            old(self).cached(list_key(strs(path@))) matches Some(listing) ==> (r matches Ok(v)
                && records(v@) == listing),
            r matches Ok(v) ==> names_ascend(records(v@)) && final(self).cached(
                list_key(strs(path@)),
            ) == Some(records(v@)),
    {
        let key = cache_key(&owned_path(path));
        match self.recall(key.as_str()) {
            Some(listing) => {
                return Ok(listing);
            },
            None => {},
        }
        let found = self.direct_list(path)?;
        proof {
            lemma_sorted_by_name(records(found@));
        }
        let listing = sort_by_name(found);
        let copy = copy_listing(&listing);
        self.keep(key, copy);
        Ok(listing)
    }

    /// Where the content of the file at `path` is found: the first record
    /// of its name in the listing of its directory says so, the listing
    /// that the view keeps afterwards. The empty path, and a name that the
    /// listing does not hold, fail with `NotFound`; where the view keeps
    /// the listing already, nothing else fails. A digest that is given is
    /// longer than two bytes and is not that of empty content.
    pub fn read_file(&mut self, path: &[&str]) -> (r: Result<FileSource, PoolError>)
        requires
            old(self).wf(),
        ensures
            final(self).wf(),
            final(self).topdir() == old(self).topdir(),
            path@.len() == 0 ==> r == Err::<FileSource, PoolError>(PoolError::NotFound),
            r matches Ok(FileSource::Pool(d)) ==> d@.len() > 2 && d@ != empty_md5(),
            path@.len() > 0 ==> (old(self).cached(parent_key(strs(path@))) matches Some(listing)
                ==> match r {
                Ok(s) => position(listing, path@.last()@) < listing.len() && s@ == content_of(
                    listing[position(listing, path@.last()@)],
                ),
                Err(e) => e == PoolError::NotFound && position(listing, path@.last()@)
                    == listing.len(),
            }),
            r matches Ok(s) ==> (final(self).cached(parent_key(strs(path@))) matches Some(listing)
                && position(listing, path@.last()@) < listing.len() && s@ == content_of(
                listing[position(listing, path@.last()@)],
            )),
    {
        if path.len() == 0 {
            return Err(PoolError::NotFound);
        }
        let name = path[path.len() - 1];
        let parent = slice_subrange(path, 0, path.len() - 1);
        assert(strs(parent@) =~= strs(path@).drop_last());
        let listing = self.list(parent)?;
        source_in(&listing, name)
    }
}

/// Whether the digest of a record has to be looked up in the table of its
/// inode: the record is not a deleted one and is linked.
fn needs_table(file: &FileAttributes) -> (r: bool)
    ensures
        r == (file@.type_ != FileType::Deleted && is_linked(file@)),
{
    match file.type_ {
        FileType::Deleted => false,
        _ => file.nlinks > 0 && file.inode != 0,
    }
}

/// A copy of a listing.
pub fn copy_listing(listing: &Vec<FileAttributes>) -> (copy: Vec<FileAttributes>)
    ensures
        records(copy@) == records(listing@),
{
    let mut copy: Vec<FileAttributes> = Vec::new();
    let mut i: usize = 0;
    while i < listing.len()
        invariant
            i <= listing.len(),
            records(copy@) == records(listing@).take(i as int),
        decreases listing.len() - i,
    {
        let ghost before = records(copy@);
        copy.push(listing[i].copy());
        assert(records(copy@) == before.push(listing@[i as int]@));
        assert(records(listing@).take(i + 1) == records(listing@).take(i as int).push(
            listing@[i as int]@,
        ));
        i += 1;
    }
    assert(records(listing@).take(i as int) == records(listing@));
    copy
}

/// The components of `path` from the `start`-th on.
fn tail_of(path: &Vec<String>, start: usize) -> (tail: Vec<String>)
    requires
        start <= path.len(),
    ensures
        views(tail@) == views(path@).skip(start as int),
{
    let mut tail: Vec<String> = Vec::new();
    let mut i: usize = start;
    while i < path.len()
        invariant
            start <= i <= path.len(),
            views(tail@) == views(path@).subrange(start as int, i as int),
        decreases path.len() - i,
    {
        let ghost before = views(tail@);
        tail.push(path[i].clone());
        assert(views(tail@) == before.push(path@[i as int]@));
        assert(views(path@).subrange(start as int, i + 1) == views(path@).subrange(
            start as int,
            i as int,
        ).push(path@[i as int]@));
        i += 1;
    }
    assert(views(path@).subrange(start as int, i as int) == views(path@).skip(start as int));
    tail
}

} // verus!
