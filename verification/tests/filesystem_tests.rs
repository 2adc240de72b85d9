use backuppc_pool_reader::attribute_file::SearchTrait;
use backuppc_pool_reader::decode_attribut::{BpcDigest, FileAttributes, FileType};
use backuppc_pool_reader::error::PoolError;
use backuppc_pool_reader::filesystem::{
    dir_entries, find_by_ino, find_by_name, root_attr, ttl_for, BackupPCFS, BackupPCFileAttribute,
    CacheElement, DirEntry, FileAttr, FileKind,
};
use backuppc_pool_reader::hosts::{parse_backup_line, BackupInformation, HostsTrait};
use backuppc_pool_reader::stream::PoolStream;
use backuppc_pool_reader::view::{BackupPC, FileSource};
use std::sync::atomic::{AtomicU32, Ordering};
use std::sync::Arc;

fn record(name: &str, type_: FileType) -> FileAttributes {
    FileAttributes {
        name: name.to_string(),
        type_,
        compress: 0,
        mode: 0o644,
        uid: 1000,
        gid: 100,
        nlinks: 1,
        mtime: 1_700_000_000,
        size: 1234,
        inode: 0,
        bpc_digest: BpcDigest { len: 0, digest: Vec::new() },
        xattr_num_entries: 0,
        xattrs: Vec::new(),
    }
}

struct OneHost {
    listed: Arc<AtomicU32>,
}

impl HostsTrait for OneHost {
    fn list_hosts(&self) -> Result<Vec<String>, PoolError> {
        self.listed.fetch_add(1, Ordering::SeqCst);
        Ok(vec!["pc-2".to_string(), "pc-1".to_string()])
    }

    fn list_backups(&self, hostname: &str) -> Result<Vec<BackupInformation>, PoolError> {
        self.listed.fetch_add(1, Ordering::SeqCst);
        match hostname {
            "pc-1" => Ok(vec![parse_backup_line("3\tfull\t1700000000"), parse_backup_line("12\tincr\t1700009999")]),
            "pc-2" => Err(PoolError::NotFound),
            _ => Err(PoolError::Io),
        }
    }

    fn list_backups_to_fill(&self, _hostname: &str, backup_number: u32) -> Vec<BackupInformation> {
        vec![parse_backup_line(&format!("{backup_number}\tfull"))]
    }
}

struct OneShare;

impl SearchTrait for OneShare {
    fn read_attrib(&self, _file: &str, _is_compressed: bool) -> Result<Vec<FileAttributes>, PoolError> {
        Err(PoolError::Io)
    }

    fn list_file_from_dir(
        &self,
        _hostname: &str,
        _backup_number: u32,
        share: Option<&str>,
        filename: Option<&str>,
    ) -> Result<Vec<FileAttributes>, PoolError> {
        match (share, filename) {
            (None, None) => Ok(vec![record("/data", FileType::Dir)]),
            (Some("/data"), Some("")) => Ok(vec![
                FileAttributes {
                    bpc_digest: BpcDigest { len: 16, digest: vec![0xab; 16] },
                    nlinks: 0,
                    ..record("notes.txt", FileType::File)
                },
                record("gone", FileType::Deleted),
                record("odd", FileType::Unknown),
                FileAttributes { nlinks: 0, ..record("link", FileType::Symlink) },
                FileAttributes { nlinks: 0, ..record("dir", FileType::Dir) },
            ]),
            _ => Err(PoolError::NotFound),
        }
    }

    fn list_attributes(
        &self,
        _hostname: &str,
        _backup_number: u32,
        _attrib_path: &str,
        _attrib_file: &str,
    ) -> Result<Vec<FileAttributes>, PoolError> {
        Ok(Vec::new())
    }

    fn get_file(
        &self,
        _hostname: &str,
        _backup_number: u32,
        _share: &str,
        _filename: &str,
    ) -> Result<Vec<FileAttributes>, PoolError> {
        Err(PoolError::Io)
    }
}

fn xxh64(data: &[u8]) -> u64 {
    let mut hasher = twox_hash::XxHash64::with_seed(0);
    std::hash::Hasher::write(&mut hasher, data);
    std::hash::Hasher::finish(&hasher)
}

fn create_fs() -> (BackupPCFS, Arc<AtomicU32>) {
    let listed = Arc::new(AtomicU32::new(0));
    let view = BackupPC::new("/top", Box::new(OneHost { listed: listed.clone() }), Box::new(OneShare));
    (BackupPCFS::new(view), listed)
}

fn ino_of(fs: &mut BackupPCFS, parent: u64, name: &str) -> u64 {
    fs.get_file_attr(parent, name).unwrap().1.ino
}

#[test]
fn attributes_of_a_record() {
    let file = FileAttributes { size: 1025, mode: 0o755, ..record("x", FileType::Hardlink) };
    let e = BackupPCFileAttribute::from_file_attribute(file, 77);
    assert_eq!(e.name, "x");
    assert_eq!(
        e.attr,
        FileAttr {
            ino: 77,
            size: 1025,
            blocks: 2,
            blksize: 512,
            atime: 1_700_000_000,
            mtime: 1_700_000_000,
            ctime: 1_700_000_000,
            crtime: 1_700_000_000,
            kind: FileKind::RegularFile,
            perm: 0o755,
            nlink: 1,
            uid: 1000,
            gid: 100,
            rdev: 0,
            flags: 0,
        }
    );
    assert_eq!(e.copy().attr, e.attr);
    for (t, k) in [
        (FileType::File, FileKind::RegularFile),
        (FileType::Hardlink, FileKind::RegularFile),
        (FileType::Symlink, FileKind::Symlink),
        (FileType::Chardev, FileKind::CharDevice),
        (FileType::Blockdev, FileKind::BlockDevice),
        (FileType::Dir, FileKind::Directory),
        (FileType::Fifo, FileKind::NamedPipe),
        (FileType::Socket, FileKind::Socket),
        (FileType::Unknown, FileKind::RegularFile),
        (FileType::Deleted, FileKind::RegularFile),
    ] {
        assert_eq!(BackupPCFileAttribute::from_file_attribute(record("x", t), 1).attr.kind, k);
    }
    assert_eq!(root_attr().ino, 1);
    assert_eq!(root_attr().kind, FileKind::Directory);
    assert_eq!(root_attr().perm, 0o755);
}

#[test]
fn time_to_live_by_depth() {
    assert_eq!(ttl_for(0), 86_400);
    assert_eq!(ttl_for(1), 3_600);
    assert_eq!(ttl_for(2), 1_000_000);
    assert_eq!(ttl_for(9), 1_000_000);
}

#[test]
fn elements_are_the_same_by_path_and_parent() {
    let a = CacheElement { path: vec!["a".to_string(), "b".to_string()], parent_ino: 5 };
    assert!(a.same(&a.copy()));
    assert!(!a.same(&CacheElement { parent_ino: 6, ..a.copy() }));
    assert!(!a.same(&CacheElement { path: vec!["a".to_string()], parent_ino: 5 }));
    assert!(!a.same(&CacheElement { path: vec!["a".to_string(), "c".to_string()], parent_ino: 5 }));
}

fn entry(name: &str, ino: u64, kind: FileKind) -> BackupPCFileAttribute {
    BackupPCFileAttribute { name: name.to_string(), attr: FileAttr { ino, kind, ..root_attr() } }
}

#[test]
fn directory_entries_from_an_offset() {
    let elements = vec![
        entry("a", 10, FileKind::Directory),
        entry("b", 11, FileKind::RegularFile),
        entry("c", 12, FileKind::Symlink),
    ];
    let dot = DirEntry { ino: 7, offset: 1, kind: FileKind::Directory, name: ".".to_string() };
    let dotdot = DirEntry { ino: 3, offset: 2, kind: FileKind::Directory, name: "..".to_string() };
    let a = DirEntry { ino: 10, offset: 2, kind: FileKind::Directory, name: "a".to_string() };
    let b = DirEntry { ino: 11, offset: 3, kind: FileKind::RegularFile, name: "b".to_string() };
    let c = DirEntry { ino: 12, offset: 4, kind: FileKind::Symlink, name: "c".to_string() };
    assert_eq!(
        dir_entries(&elements, 7, Some(3), 0),
        Ok(vec![dot, dotdot, a.clone(), b.clone(), c.clone()])
    );
    assert_eq!(dir_entries(&elements, 7, Some(3), 1), Ok(vec![a.clone(), b.clone(), c.clone()]));
    assert_eq!(dir_entries(&elements, 7, Some(3), 2), Ok(vec![b.clone(), c.clone()]));
    assert_eq!(dir_entries(&elements, 7, Some(3), 3), Ok(vec![c.clone()]));
    assert_eq!(dir_entries(&elements, 7, Some(3), 4), Ok(vec![]));
    assert_eq!(dir_entries(&elements, 7, Some(3), 400), Ok(vec![]));
    assert_eq!(dir_entries(&elements, 7, Some(3), -1), Err(PoolError::Overflow));
    // the root has no entries for itself and above
    assert_eq!(dir_entries(&elements, 1, Some(0), 0), Ok(vec![a.clone(), b.clone(), c.clone()]));
    // nor has an inode that stands for nothing
    assert_eq!(dir_entries(&elements, 7, None, 0), Ok(vec![a, b, c]));
    assert_eq!(find_by_name(&elements, "b").map(|x| x.ino), Some(11));
    assert_eq!(find_by_name(&elements, "z"), None);
    assert_eq!(find_by_ino(&elements, 12).map(|x| x.kind), Some(FileKind::Symlink));
    assert_eq!(find_by_ino(&elements, 13), None);
}

#[test]
fn inodes_are_the_hashes_of_the_paths() {
    let (mut fs, _) = create_fs();
    let root = fs.read_dir(1, 0).unwrap();
    let names: Vec<&str> = root.iter().map(|e| e.name.as_str()).collect();
    assert_eq!(names, vec!["pc-1", "pc-2"]);
    assert_eq!(root[0].offset, 2);
    assert_eq!(root[1].offset, 3);
    assert_eq!(root[0].kind, FileKind::Directory);
    assert_eq!(root[0].ino, xxh64(b"pc-1"));
    assert_eq!(root[1].ino, xxh64(b"pc-2"));
    assert_eq!(xxh64(b""), 0xef46_db37_51d8_e999);
    let pc1 = root[0].ino;
    let backups = fs.read_dir(pc1, 0).unwrap();
    let names: Vec<&str> = backups.iter().map(|e| e.name.as_str()).collect();
    assert_eq!(names, vec![".", "..", "12", "3"]);
    assert_eq!(backups[0].ino, pc1);
    assert_eq!(backups[1].ino, 1);
    assert_eq!(backups[2].ino, xxh64(b"pc-1/12"));
    assert_eq!(backups[3].offset, 3);
    // again, from an offset on: the same inodes at the same offsets
    let rest = fs.read_dir(pc1, 2).unwrap();
    assert_eq!(rest, vec![backups[3].clone()]);
    // a host without manifest has no backups
    let none = fs.read_dir(root[1].ino, 0).unwrap();
    let names: Vec<&str> = none.iter().map(|e| e.name.as_str()).collect();
    assert_eq!(names, vec![".", ".."]);
}

#[test]
fn lookups_give_attributes_and_their_time_to_live() {
    let (mut fs, _) = create_fs();
    assert_eq!(fs.get_file_attr(1, "nobody"), None);
    assert_eq!(fs.get_file_attr(99, "pc-1"), None);
    assert_eq!(fs.get_attr(99), None);
    let (ttl, host) = fs.get_file_attr(1, "pc-1").unwrap();
    assert_eq!(ttl, 86_400);
    assert_eq!(host.kind, FileKind::Directory);
    let (ttl, backup) = fs.get_file_attr(host.ino, "12").unwrap();
    assert_eq!(ttl, 3_600);
    assert_eq!(backup.mtime, 1_700_009_999);
    let (ttl, share) = fs.get_file_attr(backup.ino, "data").unwrap();
    assert_eq!(ttl, 1_000_000);
    let (_, notes) = fs.get_file_attr(share.ino, "notes.txt").unwrap();
    assert_eq!(notes.size, 1234);
    assert_eq!(notes.blocks, 2);
    assert_eq!(notes.perm, 0o644);
    assert_eq!(notes.kind, FileKind::RegularFile);
    assert_eq!(fs.get_attr(notes.ino), Some((1_000_000, notes)));
    // by the depth of the inode itself
    assert_eq!(fs.get_attr(backup.ino), Some((1_000_000, backup)));
    assert_eq!(fs.get_attr(share.ino), Some((1_000_000, share)));
    assert_eq!(fs.get_attr(host.ino), Some((3_600, host)));
    // the root is an entry of the directory above it
    assert_eq!(fs.get_attr(1).map(|(ttl, a)| (ttl, a.ino)), Some((86_400, 1)));
}

#[test]
fn listings_leave_out_deleted_and_unknown_records() {
    let (mut fs, _) = create_fs();
    let host = ino_of(&mut fs, 1, "pc-1");
    let backup = ino_of(&mut fs, host, "3");
    let share = ino_of(&mut fs, backup, "data");
    let entries = fs.read_dir(share, 0).unwrap();
    let names: Vec<&str> = entries.iter().map(|e| e.name.as_str()).collect();
    assert_eq!(names, vec![".", "..", "dir", "link", "notes.txt"]);
    assert_eq!(entries[1].ino, backup);
    assert_eq!(entries[3].kind, FileKind::Symlink);
    assert_eq!(fs.get_file_attr(share, "gone"), None);
    assert_eq!(fs.get_file_attr(share, "odd"), None);
    // what lies below cannot be listed
    let dir = ino_of(&mut fs, share, "dir");
    assert_eq!(fs.read_dir(dir, 0), Err(PoolError::NotFound));
    assert_eq!(fs.read_dir(12345, 0), Err(PoolError::NotFound));
    assert_eq!(fs.read_dir(share, -1), Err(PoolError::Overflow));
    let above = fs.read_dir(0, 0).unwrap();
    assert_eq!(above.len(), 1);
    assert_eq!(above[0].name, "..");
    assert_eq!(above[0].ino, 1);
}

#[test]
fn entries_of_a_directory_are_listed_once() {
    let (mut fs, listed) = create_fs();
    fs.read_dir(1, 0).unwrap();
    let after_first = listed.load(Ordering::SeqCst);
    assert_eq!(after_first, 1);
    fs.read_dir(1, 0).unwrap();
    fs.get_file_attr(1, "pc-1").unwrap();
    assert_eq!(listed.load(Ordering::SeqCst), after_first);
}

#[test]
fn content_of_an_inode() {
    let (mut fs, _) = create_fs();
    let host = ino_of(&mut fs, 1, "pc-1");
    let backup = ino_of(&mut fs, host, "3");
    let share = ino_of(&mut fs, backup, "data");
    let notes = ino_of(&mut fs, share, "notes.txt");
    let link = ino_of(&mut fs, share, "link");
    assert_eq!(fs.source_of(notes), Ok(FileSource::Pool(vec![0xab; 16])));
    assert_eq!(fs.source_of(link), Ok(FileSource::Empty));
    assert_eq!(fs.source_of(4242), Err(PoolError::NotFound));
    assert_eq!(fs.source_of(1), Err(PoolError::NotFound));
}

#[test]
fn open_files_are_read_by_their_handles() {
    let (mut fs, _) = create_fs();
    let content: Vec<u8> = (0..200u8).collect();
    let a = fs.open(PoolStream::open(content.clone(), false)).ok().unwrap();
    let b = fs.open(PoolStream::empty()).ok().unwrap();
    let c = fs.open(PoolStream::open(content.clone(), false)).ok().unwrap();
    assert!(a != b && b != c && a != c);
    assert_eq!(fs.read_ino(a, 10, 5), Ok(content[10..15].to_vec()));
    assert_eq!(fs.read_ino(c, 100, 500), Ok(content[100..].to_vec()));
    assert_eq!(fs.read_ino(a, 15, 5), Ok(content[15..20].to_vec()));
    assert_eq!(fs.read_ino(a, 0, 3), Ok(content[..3].to_vec()));
    // what is read does not depend on where the file stood
    assert_eq!(fs.read_ino(a, 150, 100), Ok(content[150..].to_vec()));
    assert_eq!(fs.read_ino(a, 200, 1), Ok(vec![]));
    assert_eq!(fs.read_ino(a, 199, 1), Ok(vec![199]));
    assert_eq!(fs.read_ino(b, 0, 10), Ok(vec![]));
    fs.release(a);
    assert_eq!(fs.read_ino(a, 0, 3), Err(PoolError::NotFound));
    assert_eq!(fs.read_ino(c, 0, 1), Ok(vec![0]));
    fs.release(a);
    fs.release(c);
    assert_eq!(fs.read_ino(c, 0, 1), Err(PoolError::NotFound));
}

#[test]
fn root_is_always_told_the_same() {
    let (mut fs, listed) = create_fs();
    assert_eq!(fs.get_attr(1), Some((86_400, root_attr())));
    assert_eq!(fs.get_attr(1), Some((86_400, root_attr())));
    assert_eq!(fs.get_file_attr(0, ".."), None);
    // nothing was listed for that
    assert_eq!(listed.load(Ordering::SeqCst), 0);
}

#[test]
fn entries_are_those_of_the_listing_of_the_view() {
    let (mut fs, _) = create_fs();
    let host = ino_of(&mut fs, 1, "pc-1");
    let backup = ino_of(&mut fs, host, "3");
    let share = ino_of(&mut fs, backup, "data");
    let entries = fs.read_dir(share, 2).unwrap();
    let names: Vec<&str> = entries.iter().map(|e| e.name.as_str()).collect();
    assert_eq!(names, vec!["link", "notes.txt"]);
    for e in &entries {
        let (_, attr) = fs.get_file_attr(share, &e.name).unwrap();
        assert_eq!(attr.ino, e.ino);
        assert_eq!(attr.kind, e.kind);
        assert_eq!(fs.get_attr(e.ino), Some((1_000_000, attr)));
    }
}

#[test]
fn first_open_finds_a_handle() {
    for _ in 0..20 {
        let (mut fs, _) = create_fs();
        assert!(fs.open(PoolStream::empty()).is_ok());
    }
}
