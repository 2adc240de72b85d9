use backuppc_pool_reader::attribute_file::SearchTrait;
use backuppc_pool_reader::decode_attribut::{BpcDigest, FileAttributes, FileType};
use backuppc_pool_reader::error::PoolError;
use backuppc_pool_reader::hosts::{BackupInformation, HostsTrait};
use backuppc_pool_reader::view::{BackupPC, FileSource};

// The tree that the mocks stand for:
// /var/lib/backuppc
// ├── pc-1
// │   ├── 1
// │   │   ├── volume1
// │   │   │   ├── test
// │   │   │   │   ├── supertest
// │   │   │   │   │   ├── de
// │   │   │   │   │   │   ├── test
// │   │   │   │   │   │   │   ├── file1
// │   │   │   │   │   │   │   ├── file2
// │   │   │   │   │   │   │   ├── file3
// │   │   │   │   │   │   ├── en
// │   │   │   │   │   │   ├── es
// │   │   │   │   │   │   └── fr
// │   │   │   │   │   └── test2
// │   │   │   │   └── toto
// │   │   │   └── test2
// │   └── 2
// │   │   ├── volume1
// │   │   │   ├── test
// │   │   │   └── test2
// │   │   └── volume2
// └── pc-2
// │   ├── 1
// │   ├── 2
// │   └── 3
// └── pc-3
fn create_mock_backup(num: u32) -> BackupInformation {
    BackupInformation {
        num,
        backup_type: "full".to_string(),
        start_time: 0,
        end_time: 0,
        n_files: 0,
        size: 0,
        n_files_exist: 0,
        size_exist: 0,
        n_files_new: 0,
        size_new: 0,
        xfer_errs: 0,
        xfer_bad_file: 0,
        xfer_bad_share: 0,
        tar_errs: 0,
        compress: 0,
        size_exist_comp: 0,
        size_new_comp: 0,
        no_fill: 0,
        fill_from_num: 0,
        mangle: 0,
        xfer_method: "rsync".to_string(),
        level: 0,
        charset: "utf-8".to_string(),
        version: "4.0.0".to_string(),
        inode_last: 0,
    }
}

fn create_file_attributes(name: &str, type_: FileType) -> FileAttributes {
    FileAttributes {
        name: name.to_string(),
        type_,
        compress: 0,

        mode: 0,
        uid: 0,
        gid: 0,
        nlinks: 0,

        mtime: 0,
        size: 0,
        inode: 0,

        bpc_digest: BpcDigest { len: 0, digest: Vec::new() },
        xattr_num_entries: 0,
        xattrs: Vec::new(),
    }
}

struct MockHosts;

impl HostsTrait for MockHosts {
    fn list_hosts(&self) -> Result<Vec<String>, PoolError> {
        Ok(vec!["pc-1".to_string(), "pc-2".to_string(), "pc-3".to_string()])
    }

    fn list_backups(&self, hostname: &str) -> Result<Vec<BackupInformation>, PoolError> {
        match hostname {
            "pc-1" => Ok(vec![create_mock_backup(1), create_mock_backup(2)]),
            "pc-2" => Ok(vec![create_mock_backup(1), create_mock_backup(2), create_mock_backup(3)]),
            "pc-3" => Ok(Vec::new()),
            other => panic!("no backups expected of {other}"),
        }
    }

    fn list_backups_to_fill(&self, hostname: &str, backup_number: u32) -> Vec<BackupInformation> {
        match (hostname, backup_number) {
            ("pc-1", 1) => vec![create_mock_backup(1)],
            other => panic!("no chain expected of {other:?}"),
        }
    }
}

struct MockSearch;

impl SearchTrait for MockSearch {
    fn read_attrib(&self, file: &str, _is_compressed: bool) -> Result<Vec<FileAttributes>, PoolError> {
        panic!("no read expected of {file}")
    }

    fn list_file_from_dir(
        &self,
        hostname: &str,
        backup_number: u32,
        share: Option<&str>,
        filename: Option<&str>,
    ) -> Result<Vec<FileAttributes>, PoolError> {
        match (hostname, backup_number, share, filename) {
            ("pc-1", 1, None, None) => Ok(vec![
                create_file_attributes("/home", FileType::Dir),
                create_file_attributes("/volume1/test", FileType::Dir),
                create_file_attributes("/volume1/test2", FileType::Dir),
            ]),
            ("pc-1", 2, None, None) => Ok(vec![
                create_file_attributes("/volume1/test", FileType::Dir),
                create_file_attributes("/volume1/test2", FileType::Dir),
                create_file_attributes("/volume2", FileType::Dir),
            ]),
            ("pc-1", 1, Some("/volume1/test"), Some("")) => Ok(vec![
                create_file_attributes("supertest", FileType::Dir),
                create_file_attributes("toto", FileType::Dir),
            ]),
            ("pc-1", 1, Some("/volume1/test"), Some("supertest")) => Ok(vec![
                create_file_attributes("de", FileType::Dir),
                create_file_attributes("test2", FileType::Dir),
            ]),
            ("pc-1", 1, Some("/volume1/test"), Some("supertest/de")) => Ok(vec![
                create_file_attributes("test", FileType::Dir),
                create_file_attributes("en", FileType::Dir),
                create_file_attributes("es", FileType::Dir),
                create_file_attributes("fr", FileType::Dir),
            ]),
            ("pc-1", 1, Some("/volume1/test"), Some("supertest/de/test")) => Ok(vec![
                create_file_attributes("file1", FileType::File),
                create_file_attributes("file2", FileType::File),
                create_file_attributes("file3", FileType::File),
            ]),
            ("pc-1", 1, Some("/volume1/test"), Some("supertest/de/en")) => Ok(vec![
                FileAttributes {
                    bpc_digest: BpcDigest {
                        len: 16,
                        digest: vec![
                            0x12, 0x34, 0x56, 0x78, 0x9a, 0xbc, 0xde, 0xf0, 0x01, 0x23, 0x45,
                            0x67, 0x89, 0xab, 0xcd, 0xef,
                        ],
                    },
                    ..create_file_attributes("data", FileType::File)
                },
                FileAttributes {
                    bpc_digest: BpcDigest {
                        len: 16,
                        digest: vec![
                            0xd4, 0x1d, 0x8c, 0xd9, 0x8f, 0x00, 0xb2, 0x04, 0xe9, 0x80, 0x09,
                            0x98, 0xec, 0xf8, 0x42, 0x7e,
                        ],
                    },
                    ..create_file_attributes("void", FileType::File)
                },
                FileAttributes {
                    bpc_digest: BpcDigest { len: 2, digest: vec![0x12, 0x34] },
                    ..create_file_attributes("short", FileType::File)
                },
            ]),
            other => panic!("no listing expected of {other:?}"),
        }
    }

    fn list_attributes(
        &self,
        hostname: &str,
        backup_number: u32,
        attrib_path: &str,
        attrib_file: &str,
    ) -> Result<Vec<FileAttributes>, PoolError> {
        panic!("no table expected of {hostname} {backup_number} {attrib_path} {attrib_file}")
    }

    fn get_file(
        &self,
        hostname: &str,
        backup_number: u32,
        share: &str,
        filename: &str,
    ) -> Result<Vec<FileAttributes>, PoolError> {
        panic!("no file expected of {hostname} {backup_number} {share} {filename}")
    }
}

fn create_view() -> BackupPC {
    BackupPC::new("/var/lib/backuppc", Box::new(MockHosts), Box::new(MockSearch))
}

#[test]
fn test_list_host_empty() {
    let mut view = create_view();

    let result = view.list(&[]);
    assert!(result.is_ok());

    let mut result = result.unwrap();
    result.sort_by(|a, b| a.name.cmp(&b.name));

    assert_eq!(result.len(), 3);
    assert_eq!(result[0], create_file_attributes("pc-1", FileType::Dir));
    assert_eq!(result[1], create_file_attributes("pc-2", FileType::Dir));
    assert_eq!(result[2], create_file_attributes("pc-3", FileType::Dir));
}

#[test]
fn test_list_host_pc1() {
    let mut view = create_view();

    let result = view.list(&["pc-1"]);
    assert!(result.is_ok());

    let mut result = result.unwrap();
    result.sort_by(|a, b| a.name.cmp(&b.name));

    println!("{:?}", result);
    assert_eq!(result.len(), 2);
    assert_eq!(result[0], create_file_attributes("1", FileType::Dir));
    assert_eq!(result[1], create_file_attributes("2", FileType::Dir));
}

#[test]
fn test_list_host_pc1_backup1() {
    let mut view = create_view();

    let result = view.list(&["pc-1", "1"]);
    assert!(result.is_ok());

    let mut result = result.unwrap();
    result.sort_by(|a, b| a.name.cmp(&b.name));

    println!("{:?}", result);
    assert_eq!(result.len(), 2);
    assert_eq!(result[0], create_file_attributes("home", FileType::Dir));
    assert_eq!(result[1], create_file_attributes("volume1", FileType::Dir));
}

#[test]
fn test_list_host_pc1_backup1_volume1() {
    let mut view = create_view();

    let result = view.list(&["pc-1", "1", "volume1"]);
    assert!(result.is_ok());

    let mut result = result.unwrap();
    result.sort_by(|a, b| a.name.cmp(&b.name));

    println!("{:?}", result);
    assert_eq!(result.len(), 2);
    assert_eq!(result[0], create_file_attributes("test", FileType::Dir));
    assert_eq!(result[1], create_file_attributes("test2", FileType::Dir));
}

#[test]
fn test_list_host_pc1_backup1_volume1_test() {
    let mut view = create_view();

    let result = view.list(&["pc-1", "1", "volume1", "test"]);
    assert!(result.is_ok());

    let mut result = result.unwrap();
    result.sort_by(|a, b| a.name.cmp(&b.name));

    println!("{:?}", result);
    assert_eq!(result.len(), 2);
    assert_eq!(result[0], create_file_attributes("supertest", FileType::Dir));
    assert_eq!(result[1], create_file_attributes("toto", FileType::Dir));
}

#[test]
fn test_list_host_pc1_backup1_volume1_test_supertest() {
    let mut view = create_view();

    let result = view.list(&["pc-1", "1", "volume1", "test", "supertest"]);
    assert!(result.is_ok());

    let mut result = result.unwrap();
    result.sort_by(|a, b| a.name.cmp(&b.name));

    println!("{:?}", result);
    assert_eq!(result.len(), 2);
    assert_eq!(result[0], create_file_attributes("de", FileType::Dir));
    assert_eq!(result[1], create_file_attributes("test2", FileType::Dir));
}

#[test]
fn test_list_host_pc1_backup1_volume1_test_supertest_de() {
    let mut view = create_view();

    let result = view.list(&["pc-1", "1", "volume1", "test", "supertest", "de"]);
    assert!(result.is_ok());

    let mut result = result.unwrap();
    result.sort_by(|a, b| a.name.cmp(&b.name));

    println!("{:?}", result);
    assert_eq!(result.len(), 4);
    assert_eq!(result[0], create_file_attributes("en", FileType::Dir));
    assert_eq!(result[1], create_file_attributes("es", FileType::Dir));
    assert_eq!(result[2], create_file_attributes("fr", FileType::Dir));
    assert_eq!(result[3], create_file_attributes("test", FileType::Dir));
}

#[test]
fn test_list_host_pc1_backup1_volume1_test_supertest_de_test() {
    let mut view = create_view();

    let result = view.list(&["pc-1", "1", "volume1", "test", "supertest", "de", "test"]);
    assert!(result.is_ok());

    let mut result = result.unwrap();
    result.sort_by(|a, b| a.name.cmp(&b.name));

    println!("{:?}", result);
    assert_eq!(result.len(), 3);
    assert_eq!(result[0], create_file_attributes("file1", FileType::File));
    assert_eq!(result[1], create_file_attributes("file2", FileType::File));
    assert_eq!(result[2], create_file_attributes("file3", FileType::File));
}

#[test]
fn listings_come_sorted_and_are_kept() {
    let mut view = create_view();
    let first = view.list(&["pc-1", "1", "volume1", "test", "supertest", "de"]).unwrap();
    let names: Vec<&str> = first.iter().map(|f| f.name.as_str()).collect();
    assert_eq!(names, vec!["en", "es", "fr", "test"]);
    let again = view.list(&["pc-1", "1", "volume1", "test", "supertest", "de"]).unwrap();
    assert_eq!(first, again);
    // empty components do not change the key of a listing
    let same = view.list(&["pc-1", "", "1", "volume1", "test", "supertest", "de"]).unwrap();
    assert_eq!(first, same);
}

#[test]
fn direct_list_of_hosts_keeps_their_order() {
    let mut view = create_view();
    let hosts = view.direct_list(&[]).unwrap();
    let names: Vec<&str> = hosts.iter().map(|f| f.name.as_str()).collect();
    assert_eq!(names, vec!["pc-1", "pc-2", "pc-3"]);
    let none = view.direct_list(&["pc-3"]).unwrap();
    assert!(none.is_empty());
}

#[test]
fn read_file_of_a_record_without_digest_is_empty() {
    let mut view = create_view();
    let path = ["pc-1", "1", "volume1", "test", "supertest", "de", "test", "file1"];
    assert_eq!(view.read_file(&path), Ok(FileSource::Empty));
}

#[test]
fn read_file_says_where_the_content_is() {
    let mut view = create_view();
    let mut path = vec!["pc-1", "1", "volume1", "test", "supertest", "de", "en", "data"];
    assert_eq!(
        view.read_file(&path),
        Ok(FileSource::Pool(vec![
            0x12, 0x34, 0x56, 0x78, 0x9a, 0xbc, 0xde, 0xf0, 0x01, 0x23, 0x45, 0x67, 0x89, 0xab,
            0xcd, 0xef,
        ]))
    );
    path[7] = "void";
    assert_eq!(view.read_file(&path), Ok(FileSource::Empty));
    path[7] = "short";
    assert_eq!(view.read_file(&path), Ok(FileSource::Empty));
    path[7] = "missing";
    assert_eq!(view.read_file(&path), Err(PoolError::NotFound));
    assert_eq!(view.read_file(&[]), Err(PoolError::NotFound));
}

struct CountingHosts {
    listed: std::sync::Arc<std::sync::atomic::AtomicU32>,
}

impl HostsTrait for CountingHosts {
    fn list_hosts(&self) -> Result<Vec<String>, PoolError> {
        self.listed.fetch_add(1, std::sync::atomic::Ordering::SeqCst);
        Ok(vec!["b".to_string(), "a".to_string()])
    }

    fn list_backups(&self, hostname: &str) -> Result<Vec<BackupInformation>, PoolError> {
        self.listed.fetch_add(1, std::sync::atomic::Ordering::SeqCst);
        match hostname {
            "a" => Ok(vec![create_mock_backup(5)]),
            "b" => Err(PoolError::NotFound),
            _ => Err(PoolError::Io),
        }
    }

    fn list_backups_to_fill(&self, _hostname: &str, _backup_number: u32) -> Vec<BackupInformation> {
        vec![create_mock_backup(2), create_mock_backup(1)]
    }
}

struct LinkedSearch;

impl SearchTrait for LinkedSearch {
    fn read_attrib(&self, _file: &str, _is_compressed: bool) -> Result<Vec<FileAttributes>, PoolError> {
        Err(PoolError::Io)
    }

    fn list_file_from_dir(
        &self,
        _hostname: &str,
        backup_number: u32,
        share: Option<&str>,
        _filename: Option<&str>,
    ) -> Result<Vec<FileAttributes>, PoolError> {
        match (backup_number, share) {
            (_, None) => Ok(vec![create_file_attributes("/s", FileType::Dir)]),
            (2, Some("/s")) => Ok(vec![
                create_file_attributes("X", FileType::Dir),
                create_file_attributes("old", FileType::File),
                FileAttributes {
                    nlinks: 2,
                    inode: 0x0002_0401,
                    ..create_file_attributes("hard", FileType::File)
                },
            ]),
            (1, Some("/s")) => Ok(vec![
                create_file_attributes("X", FileType::Deleted),
                create_file_attributes("new", FileType::File),
            ]),
            _ => Err(PoolError::NotFound),
        }
    }

    fn list_attributes(
        &self,
        _hostname: &str,
        backup_number: u32,
        attrib_path: &str,
        attrib_file: &str,
    ) -> Result<Vec<FileAttributes>, PoolError> {
        assert_eq!(backup_number, 2);
        assert_eq!(attrib_path, "inode/01");
        assert_eq!(attrib_file, "attrib01_");
        Ok(vec![
            FileAttributes {
                bpc_digest: BpcDigest { len: 16, digest: vec![0x11; 16] },
                ..create_file_attributes("zz", FileType::File)
            },
            FileAttributes {
                bpc_digest: BpcDigest { len: 16, digest: vec![0x77; 16] },
                ..create_file_attributes("010402", FileType::File)
            },
        ])
    }

    fn get_file(
        &self,
        _hostname: &str,
        _backup_number: u32,
        _share: &str,
        _filename: &str,
    ) -> Result<Vec<FileAttributes>, PoolError> {
        Err(PoolError::Io)
    }
}

fn counting_view(capacity: usize) -> (BackupPC, std::sync::Arc<std::sync::atomic::AtomicU32>) {
    let listed = std::sync::Arc::new(std::sync::atomic::AtomicU32::new(0));
    let hosts = CountingHosts { listed: listed.clone() };
    (BackupPC::new_with_capacity("/top", Box::new(hosts), Box::new(LinkedSearch), capacity), listed)
}

#[test]
fn listings_are_made_once_while_they_are_kept() {
    let (mut view, listed) = counting_view(2);
    let hosts = view.list(&[]).unwrap();
    let names: Vec<&str> = hosts.iter().map(|f| f.name.as_str()).collect();
    assert_eq!(names, vec!["a", "b"]);
    assert_eq!(listed.load(std::sync::atomic::Ordering::SeqCst), 1);
    assert_eq!(view.list(&[]).unwrap(), hosts);
    assert_eq!(listed.load(std::sync::atomic::Ordering::SeqCst), 1);
    let backups = view.list(&["a"]).unwrap();
    assert_eq!(backups.len(), 1);
    assert_eq!(backups[0].name, "5");
    assert_eq!(listed.load(std::sync::atomic::Ordering::SeqCst), 2);
    view.list(&[]).unwrap();
    view.list(&["a"]).unwrap();
    assert_eq!(listed.load(std::sync::atomic::Ordering::SeqCst), 2);
}

#[test]
fn listing_used_longest_ago_leaves_a_full_cache() {
    let (mut view, listed) = counting_view(2);
    view.list(&[]).unwrap();
    view.list(&["a"]).unwrap();
    assert_eq!(listed.load(std::sync::atomic::Ordering::SeqCst), 2);
    // the hosts were used last: a third listing takes the place of the backups
    view.list(&[]).unwrap();
    assert!(view.list(&["b"]).unwrap().is_empty());
    assert_eq!(listed.load(std::sync::atomic::Ordering::SeqCst), 3);
    view.list(&[]).unwrap();
    assert_eq!(listed.load(std::sync::atomic::Ordering::SeqCst), 3);
    view.list(&["a"]).unwrap();
    assert_eq!(listed.load(std::sync::atomic::Ordering::SeqCst), 4);
    let (mut single, listed) = counting_view(1);
    single.list(&[]).unwrap();
    single.list(&["a"]).unwrap();
    single.list(&[]).unwrap();
    assert_eq!(listed.load(std::sync::atomic::Ordering::SeqCst), 3);
}

#[test]
fn failures_of_the_hosts_stay_failures() {
    let (mut view, listed) = counting_view(4);
    assert_eq!(view.list(&["c"]), Err(PoolError::Io));
    assert_eq!(view.list(&["c"]), Err(PoolError::Io));
    assert_eq!(listed.load(std::sync::atomic::Ordering::SeqCst), 2);
    assert_eq!(view.read_file(&["c", "x"]), Err(PoolError::Io));
}

#[test]
fn chain_is_laid_over_and_links_are_resolved() {
    let (mut view, _) = counting_view(8);
    let files = view.list(&["a", "5", "s"]).unwrap();
    let names: Vec<&str> = files.iter().map(|f| f.name.as_str()).collect();
    assert_eq!(names, vec!["hard", "new", "old"]);
    assert_eq!(files[0].bpc_digest, BpcDigest { len: 16, digest: vec![0x77; 16] });
    assert_eq!(files[0].nlinks, 2);
    assert_eq!(view.read_file(&["a", "5", "s", "hard"]), Ok(FileSource::Pool(vec![0x77; 16])));
    assert_eq!(view.read_file(&["a", "5", "s", "X"]), Err(PoolError::NotFound));
    assert_eq!(view.top(), "/top");
}

#[test]
fn content_of_a_file_is_that_of_its_pool_file() {
    let mut view = create_view();
    let path = ["pc-1", "1", "volume1", "test", "supertest", "de", "en", "data"];
    let digest = match view.read_file(&path) {
        Ok(FileSource::Pool(digest)) => digest,
        other => panic!("no digest: {other:?}"),
    };
    let (found, compressed) = backuppc_pool_reader::pool::find_file_in_backuppc(
        view.top(),
        &digest,
        None,
        false,
        true,
    )
    .unwrap();
    assert_eq!(found, "/var/lib/backuppc/cpool/12/34/123456789abcdef00123456789abcdef");
    assert!(compressed);
    let content = b"the bytes of the file".to_vec();
    let mut encoder = flate2::write::ZlibEncoder::new(Vec::new(), flate2::Compression::default());
    std::io::Write::write_all(&mut encoder, &content).unwrap();
    let mut pool_file = encoder.finish().unwrap();
    pool_file[0] = 0xd6;
    let mut stream = backuppc_pool_reader::stream::PoolStream::open(pool_file, compressed);
    assert_eq!(stream.read_to_end(), Ok(content));
    let mut empty = backuppc_pool_reader::stream::PoolStream::empty();
    assert_eq!(empty.read_to_end(), Ok(vec![]));
}

struct TableSearch {
    tables_read: std::sync::Arc<std::sync::atomic::AtomicU32>,
}

impl SearchTrait for TableSearch {
    fn read_attrib(&self, _file: &str, _is_compressed: bool) -> Result<Vec<FileAttributes>, PoolError> {
        Err(PoolError::Io)
    }

    fn list_file_from_dir(
        &self,
        _hostname: &str,
        backup_number: u32,
        share: Option<&str>,
        _filename: Option<&str>,
    ) -> Result<Vec<FileAttributes>, PoolError> {
        match (backup_number, share) {
            (_, None) => Ok(vec![create_file_attributes("/s", FileType::Dir)]),
            (2, Some("/s")) => Ok(vec![
                FileAttributes {
                    nlinks: 2,
                    inode: 0x0002_0401,
                    ..create_file_attributes("one", FileType::File)
                },
                FileAttributes {
                    nlinks: 2,
                    inode: 0x0002_0402,
                    ..create_file_attributes("two", FileType::File)
                },
            ]),
            _ => Ok(Vec::new()),
        }
    }

    fn list_attributes(
        &self,
        hostname: &str,
        backup_number: u32,
        attrib_path: &str,
        attrib_file: &str,
    ) -> Result<Vec<FileAttributes>, PoolError> {
        self.tables_read.fetch_add(1, std::sync::atomic::Ordering::SeqCst);
        assert_eq!(backup_number, 2);
        assert_eq!(attrib_path, "inode/01");
        assert_eq!(attrib_file, "attrib01_");
        // each host has digests of its own
        let first = if hostname == "a" { 0x11 } else { 0xaa };
        Ok(vec![
            FileAttributes {
                bpc_digest: BpcDigest { len: 16, digest: vec![first + 1; 16] },
                ..create_file_attributes("020402", FileType::File)
            },
            FileAttributes {
                bpc_digest: BpcDigest { len: 16, digest: vec![first; 16] },
                ..create_file_attributes("010402", FileType::File)
            },
        ])
    }

    fn get_file(
        &self,
        _hostname: &str,
        _backup_number: u32,
        _share: &str,
        _filename: &str,
    ) -> Result<Vec<FileAttributes>, PoolError> {
        Err(PoolError::Io)
    }
}

fn table_view() -> (BackupPC, std::sync::Arc<std::sync::atomic::AtomicU32>) {
    let listed = std::sync::Arc::new(std::sync::atomic::AtomicU32::new(0));
    let tables_read = std::sync::Arc::new(std::sync::atomic::AtomicU32::new(0));
    let view = BackupPC::new(
        "/top",
        Box::new(CountingHosts { listed }),
        Box::new(TableSearch { tables_read: tables_read.clone() }),
    );
    (view, tables_read)
}

#[test]
fn table_of_inodes_is_read_once_for_a_backup() {
    let (mut view, tables_read) = table_view();
    let files = view.list(&["a", "5", "s"]).unwrap();
    assert_eq!(files.len(), 2);
    assert_eq!(files[0].name, "one");
    assert_eq!(files[0].bpc_digest.digest, vec![0x11; 16]);
    assert_eq!(files[1].name, "two");
    assert_eq!(files[1].bpc_digest.digest, vec![0x12; 16]);
    // both inodes share one table
    assert_eq!(tables_read.load(std::sync::atomic::Ordering::SeqCst), 1);
    // another directory of the same backup needs the table again: it is kept
    view.list(&["a", "5", "s", "sub"]).unwrap();
    assert_eq!(tables_read.load(std::sync::atomic::Ordering::SeqCst), 1);
}

#[test]
fn table_of_inodes_belongs_to_its_host() {
    let (mut view, tables_read) = table_view();
    let of_a = view.list(&["a", "5", "s"]).unwrap();
    let of_b = view.list(&["b", "5", "s"]).unwrap();
    assert_eq!(of_a[0].bpc_digest.digest, vec![0x11; 16]);
    assert_eq!(of_b[0].bpc_digest.digest, vec![0xaa; 16]);
    assert_eq!(of_b[1].bpc_digest.digest, vec![0xab; 16]);
    assert_eq!(tables_read.load(std::sync::atomic::Ordering::SeqCst), 2);
}

#[test]
fn table_of_inodes_is_no_listing_of_a_path() {
    let (mut view, tables_read) = table_view();
    view.list(&["a", "5", "s"]).unwrap();
    assert_eq!(tables_read.load(std::sync::atomic::Ordering::SeqCst), 1);
    // a path that spells the place of the table is listed as any path is
    let listing = view.list(&["inode", "01", "attrib01_"]).unwrap();
    assert!(listing.is_empty());
    assert_eq!(tables_read.load(std::sync::atomic::Ordering::SeqCst), 1);
}
