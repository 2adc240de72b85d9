use backuppc_pool_reader::attribute_file::{AttribPointer, Search};
use backuppc_pool_reader::decode_attribut::{BpcDigest, FileAttributes, FileType};
use backuppc_pool_reader::error::PoolError;
use backuppc_pool_reader::pool::{find_file_in_backuppc, pool_paths};
use backuppc_pool_reader::shares::{path_starts_with, sanitize_path, select_share};

fn strings(items: &[&str]) -> Vec<String> {
    items.iter().map(|s| s.to_string()).collect()
}

#[test]
fn path_components_leave_out_what_is_empty() {
    assert_eq!(sanitize_path("/volume1/test"), strings(&["volume1", "test"]));
    assert_eq!(sanitize_path("a//b/"), strings(&["a", "b"]));
    assert_eq!(sanitize_path(""), Vec::<String>::new());
    assert_eq!(sanitize_path("///"), Vec::<String>::new());
    assert_eq!(sanitize_path("home"), strings(&["home"]));
}

#[test]
fn path_prefixes() {
    assert!(path_starts_with(&strings(&["a", "b"]), &strings(&["a"])));
    assert!(path_starts_with(&strings(&["a", "b"]), &strings(&["a", "b"])));
    assert!(path_starts_with(&strings(&["a", "b"]), &strings(&[])));
    assert!(!path_starts_with(&strings(&["a"]), &strings(&["a", "b"])));
    assert!(!path_starts_with(&strings(&["a", "b"]), &strings(&["b"])));
    assert!(!path_starts_with(&strings(&["ab"]), &strings(&["a"])));
}

#[test]
fn shares_below_the_path_give_directories() {
    let shares = strings(&["/home", "/volume1/test", "/volume1/test2"]);
    let (dirs, selected, size) = select_share(&shares, &strings(&[]));
    assert_eq!(dirs, strings(&["home", "volume1"]));
    assert_eq!(selected, None);
    assert_eq!(size, 0);
    let (dirs, selected, size) = select_share(&shares, &strings(&["volume1"]));
    assert_eq!(dirs, strings(&["test", "test2"]));
    assert_eq!(selected, None);
    assert_eq!(size, 0);
    let (dirs, selected, _) = select_share(&shares, &strings(&["other"]));
    assert!(dirs.is_empty());
    assert_eq!(selected, None);
}

#[test]
fn path_in_a_share_selects_it() {
    let shares = strings(&["/home", "/volume1/test", "/volume1/test2"]);
    let (dirs, selected, size) = select_share(&shares, &strings(&["volume1", "test"]));
    assert!(dirs.is_empty());
    assert_eq!(selected, Some("/volume1/test".to_string()));
    assert_eq!(size, 2);
    let (_, selected, size) = select_share(&shares, &strings(&["volume1", "test", "x", "y"]));
    assert_eq!(selected, Some("/volume1/test".to_string()));
    assert_eq!(size, 2);
    let (_, selected, size) = select_share(&shares, &strings(&["home", "me"]));
    assert_eq!(selected, Some("/home".to_string()));
    assert_eq!(size, 1);
}

#[test]
fn longest_share_wins_whatever_the_order() {
    let path = strings(&["a", "b", "c"]);
    for shares in [strings(&["/a", "/a/b"]), strings(&["/a/b", "/a"])] {
        let (_, selected, size) = select_share(&shares, &path);
        assert_eq!(selected, Some("/a/b".to_string()));
        assert_eq!(size, 2);
    }
    // of shares with the same components the one listed last
    let (_, selected, size) = select_share(&strings(&["/a/b", "a/b/"]), &path);
    assert_eq!(selected, Some("a/b/".to_string()));
    assert_eq!(size, 2);
    // a share below the path beside the share of the path
    let (dirs, selected, size) = select_share(&strings(&["/a", "/a/b/c/d"]), &path);
    assert_eq!(dirs, strings(&["d"]));
    assert_eq!(selected, Some("/a".to_string()));
    assert_eq!(size, 1);
}

#[test]
fn pool_paths_leave_out_the_lowest_bit_of_the_directories() {
    let digest = vec![0x13, 0x35, 0x56, 0x78];
    let paths = pool_paths("/top", &digest, None).ok().unwrap();
    assert_eq!(paths.pool, "/top/pool/12/34/13355678");
    assert_eq!(paths.cpool, "/top/cpool/12/34/13355678");
    let paths = pool_paths("/top", &vec![0xff, 0x00], Some(5)).ok().unwrap();
    assert_eq!(paths.pool, "/top/pool/fe/00/05ff00");
    let paths = pool_paths("", &vec![0x01, 0x01], Some(0x1a2b)).ok().unwrap();
    assert_eq!(paths.cpool, "/cpool/00/00/1a2b0101");
    let paths = pool_paths("x", &vec![0x01, 0x01], Some(0)).ok().unwrap();
    assert_eq!(paths.cpool, "x/cpool/00/00/000101");
    let paths = pool_paths("x", &vec![0x01, 0x01], Some(u64::MAX)).ok().unwrap();
    assert_eq!(paths.pool, "x/pool/00/00/ffffffffffffffff0101");
    assert_eq!(pool_paths("/top", &vec![0x12], None).err(), Some(PoolError::InvalidDigest));
    assert_eq!(pool_paths("/top", &vec![], Some(1)).err(), Some(PoolError::InvalidDigest));
}

#[test]
fn pool_file_is_looked_for_plain_first() {
    let digest = vec![0x12, 0x34, 0x56, 0x78];
    assert_eq!(
        find_file_in_backuppc("/home/user/backuppc", &digest, Some(123), true, true),
        Ok(("/home/user/backuppc/pool/12/34/7b12345678".to_string(), false))
    );
    assert_eq!(
        find_file_in_backuppc("/t", &digest, None, true, false),
        Ok(("/t/pool/12/34/12345678".to_string(), false))
    );
    assert_eq!(
        find_file_in_backuppc("/t", &digest, None, false, true),
        Ok(("/t/cpool/12/34/12345678".to_string(), true))
    );
    assert_eq!(find_file_in_backuppc("/t", &digest, None, false, false), Err(PoolError::NotFound));
    assert_eq!(
        find_file_in_backuppc("/t", &vec![0x12], None, true, true),
        Err(PoolError::InvalidDigest)
    );
}

#[test]
fn attribute_file_is_the_first_with_its_prefix() {
    let names = strings(&["backupInfo", "attrib_0123", "attrib_4567", "fhome"]);
    assert_eq!(Search::search_attrib_file(&names, "attrib_"), Some(1));
    assert_eq!(Search::search_attrib_file(&names, "attrib0_"), None);
    assert_eq!(Search::search_attrib_file(&names, "f"), Some(3));
    assert_eq!(Search::search_attrib_file(&names, ""), Some(0));
    assert_eq!(Search::search_attrib_file(&Vec::new(), "attrib_"), None);
}

#[test]
fn directory_without_attribute_file_has_no_content() {
    let names = strings(&["backupInfo", "attrib_0a0b", "attrib_4567"]);
    assert_eq!(Search::find_pointer(&names, "attrib_"), AttribPointer::Digest(vec![0x0a, 0x0b]));
    assert_eq!(Search::find_pointer(&names, "attrib7f_"), AttribPointer::Empty);
    assert_eq!(Search::find_pointer(&Vec::new(), "attrib_"), AttribPointer::Empty);
    assert_eq!(Search::find_pointer(&strings(&["attrib_0"]), "attrib_"), AttribPointer::Empty);
    assert_eq!(Search::find_pointer(&strings(&["attrib_zz"]), "attrib_"), AttribPointer::Invalid);
}

#[test]
fn attribute_file_name_ends_in_the_digest_of_its_content() {
    assert_eq!(
        Search::attrib_pointer("attrib_d41d8cd98f00b204e9800998ecf8427e"),
        AttribPointer::Digest(vec![
            0xd4, 0x1d, 0x8c, 0xd9, 0x8f, 0x00, 0xb2, 0x04, 0xe9, 0x80, 0x09, 0x98, 0xec, 0xf8,
            0x42, 0x7e
        ])
    );
    assert_eq!(Search::attrib_pointer("attrib_0"), AttribPointer::Empty);
    assert_eq!(Search::attrib_pointer("attrib7f_0"), AttribPointer::Empty);
    assert_eq!(Search::attrib_pointer("attrib7f_00"), AttribPointer::Digest(vec![0]));
    assert_eq!(Search::attrib_pointer("a_b_12ab"), AttribPointer::Digest(vec![0x12, 0xab]));
    assert_eq!(Search::attrib_pointer("attrib_xyz"), AttribPointer::Invalid);
    assert_eq!(Search::attrib_pointer("attrib_"), AttribPointer::Digest(vec![]));
}

#[test]
fn attribute_paths_are_mangled() {
    assert_eq!(Search::attrib_path(None, None), "");
    assert_eq!(Search::attrib_path(Some("/volume1/test"), None), "f%2fvolume1%2ftest");
    assert_eq!(
        Search::attrib_path(Some("/volume1/test"), Some("supertest/de")),
        "f%2fvolume1%2ftest/fsupertest/fde"
    );
    assert_eq!(Search::attrib_path(Some("home"), Some("")), "fhome/");
    assert_eq!(Search::attrib_path(None, Some("a/b")), "fa/fb");
    let search = Search::new("/var/lib/backuppc");
    assert_eq!(search.top(), "/var/lib/backuppc");
    assert_eq!(
        search.attrib_dir("pc-1", 12, "fhome/fme"),
        "/var/lib/backuppc/pc/pc-1/12/fhome/fme"
    );
    assert_eq!(search.attrib_dir("h", 0, ""), "/var/lib/backuppc/pc/h/0/");
}

#[test]
fn file_paths_split_at_the_last_slash() {
    assert_eq!(Search::split_file_path("a/b/c.txt"), ("a/b".to_string(), "c.txt".to_string()));
    assert_eq!(Search::split_file_path("c.txt"), ("".to_string(), "c.txt".to_string()));
    assert_eq!(Search::split_file_path("/c"), ("".to_string(), "c".to_string()));
    assert_eq!(Search::split_file_path("a/"), ("a".to_string(), "".to_string()));
    assert_eq!(Search::split_file_path(""), ("".to_string(), "".to_string()));
}

fn record(name: &str, size: u64) -> FileAttributes {
    FileAttributes {
        name: name.to_string(),
        type_: FileType::File,
        compress: 0,
        mode: 0,
        uid: 0,
        gid: 0,
        nlinks: 0,
        mtime: 0,
        size,
        inode: 0,
        bpc_digest: BpcDigest { len: 0, digest: Vec::new() },
        xattr_num_entries: 0,
        xattrs: Vec::new(),
    }
}

#[test]
fn files_of_one_name() {
    let all = vec![record("a", 1), record("b", 2), record("a", 3)];
    assert_eq!(Search::files_called(all.clone(), "a"), vec![record("a", 1), record("a", 3)]);
    assert_eq!(Search::files_called(all.clone(), "b"), vec![record("b", 2)]);
    assert!(Search::files_called(all, "c").is_empty());
}

#[test]
fn attribute_content_plain_and_compressed() {
    let plain = vec![
        0x17, 0x56, 0x53, 0x53, 0x01, b'f', 0x00, 0x05, 0x01, 0xed, 0x03, 0, 0, 0, 0, 0, 0, 0,
    ];
    let read = Search::decode_attrib(plain.clone(), false).unwrap();
    assert_eq!(read.len(), 1);
    assert_eq!(read[0].name, "f");
    assert_eq!(read[0].type_, FileType::Dir);
    let mut encoder = flate2::write::ZlibEncoder::new(Vec::new(), flate2::Compression::default());
    std::io::Write::write_all(&mut encoder, &plain).unwrap();
    let mut packed = encoder.finish().unwrap();
    packed[0] = 0xd6;
    assert_eq!(Search::decode_attrib(packed.clone(), true), Ok(read));
    assert_eq!(Search::decode_attrib(packed, false), Err(PoolError::InvalidMagic));
    assert_eq!(Search::decode_attrib(plain, true), Err(PoolError::CorruptData));
    assert_eq!(Search::decode_attrib(vec![0xb3], true), Err(PoolError::InvalidMagic));
}
