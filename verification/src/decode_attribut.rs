//! The records of attribute files and their binary format.
use vstd::prelude::*;
use vstd::utf8::{decode_utf8, valid_utf8};
use crate::error::PoolError;
use crate::hosts::BackupInformation;
use crate::reader::{
    after_bytes, after_uint, be32, bytes_at, lemma_after_uint_within, uint_at, within, ByteReader,
    Cursor,
};
use crate::text::{decimal, decimal_string};

verus! {

/// The first four bytes of every attribute file, read as a big-endian number.
pub const BPC_ATTRIB_TYPE_XATTR: u32 = 0x1756_5353;

/// The kind of a file.
#[derive(Debug, PartialEq, Eq, Clone, Copy, Hash, Structural)]
pub enum FileType {
    /// Regular file.
    File,
    /// Hard link.
    Hardlink,
    /// Symbolic link.
    Symlink,
    /// Character device.
    Chardev,
    /// Block device.
    Blockdev,
    /// Directory.
    Dir,
    /// FIFO (named pipe).
    Fifo,
    /// Unknown file type.
    Unknown,
    /// Socket.
    Socket,
    /// Deleted file.
    Deleted,
}

/// An extended attribute.
#[derive(Debug, PartialEq, Eq, Clone, Hash)]
pub struct XattrEntry {
    /// The key of the extended attribute.
    pub key: String,
    /// The value of the extended attribute.
    pub value: String,
}

/// The address of a file's content in the pool.
#[derive(Debug, PartialEq, Eq, Clone, Hash)]
pub struct BpcDigest {
    /// Length of the digest.
    pub len: u64,
    /// The digest data.
    pub digest: Vec<u8>,
}

/// What an attribute file records of one file.
#[derive(Debug, PartialEq, Eq, Clone, Hash)]
pub struct FileAttributes {
    /// Name of the file.
    pub name: String,
    /// Type of the file.
    pub type_: FileType,
    /// Compression level of the file.
    pub compress: u64,
    /// File mode.
    pub mode: u16,
    /// User ID of the file owner.
    pub uid: u32,
    /// Group ID of the file owner.
    pub gid: u32,
    /// Number of hard links to the file.
    pub nlinks: u32,
    /// Modification time of the file.
    pub mtime: u64,
    /// Size of the file.
    pub size: u64,
    /// Inode number of the file.
    pub inode: u64,
    /// BackupPC digest of the file.
    pub bpc_digest: BpcDigest,
    /// Number of extended attributes entries.
    pub xattr_num_entries: u64,
    /// List of extended attributes entries.
    pub xattrs: Vec<XattrEntry>,
}

/// An extended attribute as a value.
pub struct XattrView {
    pub key: Seq<char>,
    pub value: Seq<char>,
}

/// A file record as a value.
pub struct FileRecord {
    pub name: Seq<char>,
    pub type_: FileType,
    pub compress: u64,
    pub mode: u16,
    pub uid: u32,
    pub gid: u32,
    pub nlinks: u32,
    pub mtime: u64,
    pub size: u64,
    pub inode: u64,
    pub digest_len: u64,
    pub digest: Seq<u8>,
    pub xattr_num_entries: u64,
    pub xattrs: Seq<XattrView>,
}

impl View for XattrEntry {
    type V = XattrView;

    open spec fn view(&self) -> XattrView {
        XattrView { key: self.key@, value: self.value@ }
    }
}

/// The extended attributes of a vector as values.
pub open spec fn xattr_views(v: Seq<XattrEntry>) -> Seq<XattrView> {
    Seq::new(v.len(), |i: int| v[i]@)
}

impl View for FileAttributes {
    type V = FileRecord;

    open spec fn view(&self) -> FileRecord {
        FileRecord {
            name: self.name@,
            type_: self.type_,
            compress: self.compress,
            mode: self.mode,
            uid: self.uid,
            gid: self.gid,
            nlinks: self.nlinks,
            mtime: self.mtime,
            size: self.size,
            inode: self.inode,
            digest_len: self.bpc_digest.len,
            digest: self.bpc_digest.digest@,
            xattr_num_entries: self.xattr_num_entries,
            xattrs: xattr_views(self.xattrs@),
        }
    }
}

/// The records of a vector as values.
pub open spec fn records(v: Seq<FileAttributes>) -> Seq<FileRecord> {
    Seq::new(v.len(), |i: int| v[i]@)
}

/// A directory called `name` of which nothing else is known.
pub open spec fn plain_dir(name: Seq<char>, mtime: u64) -> FileRecord {
    FileRecord {
        name,
        type_: FileType::Dir,
        compress: 0,
        mode: 0,
        uid: 0,
        gid: 0,
        nlinks: 0,
        mtime,
        size: 0,
        inode: 0,
        digest_len: 0,
        digest: Seq::<u8>::empty(),
        xattr_num_entries: 0,
        xattrs: Seq::<XattrView>::empty(),
    }
}

impl XattrEntry {
    /// A copy of this entry.
    pub fn copy(&self) -> (r: XattrEntry)
        ensures
            r@ == self@,
    {
        XattrEntry { key: self.key.clone(), value: self.value.clone() }
    }
}

impl FileAttributes {
    /// A directory called `name` of which only the age is known.
    fn dir(name: String, mtime: u64) -> (r: Self)
        ensures
            r@ == plain_dir(name@, mtime),
    {
        let r = FileAttributes {
            name,
            type_: FileType::Dir,
            compress: 0,
            mode: 0,
            uid: 0,
            gid: 0,
            nlinks: 0,
            mtime,
            size: 0,
            inode: 0,
            bpc_digest: BpcDigest { len: 0, digest: Vec::new() },
            xattr_num_entries: 0,
            xattrs: Vec::new(),
        };
        assert(xattr_views(r.xattrs@) == Seq::<XattrView>::empty());
        r
    }

    /// The directory that stands for a host.
    pub fn from_host(host: String) -> (r: Self)
        ensures
            r@ == plain_dir(host@, 0),
    {
        Self::dir(host, 0)
    }

    /// The directory that stands for a backup: named by its number in
    /// decimal, and as old as the backup's start.
    pub fn from_backup(backup: &BackupInformation) -> (r: Self)
        ensures
            r@ == plain_dir(decimal(backup.num as nat), backup.start_time),
    {
        Self::dir(decimal_string(backup.num as u64), backup.start_time)
    }

    /// The directory that stands for a share, or for a part of its path.
    pub fn from_share(share: String) -> (r: Self)
        ensures
            r@ == plain_dir(share@, 0),
    {
        Self::dir(share, 0)
    }

    /// A copy of this record.
    pub fn copy(&self) -> (r: FileAttributes)
        ensures
            r@ == self@,
    {
        let mut xattrs: Vec<XattrEntry> = Vec::new();
        let mut i: usize = 0;
        while i < self.xattrs.len()
            invariant
                i <= self.xattrs.len(),
                xattr_views(xattrs@) == xattr_views(self.xattrs@).take(i as int),
            decreases self.xattrs.len() - i,
        {
            let ghost before = xattr_views(xattrs@);
            xattrs.push(self.xattrs[i].copy());
            assert(xattr_views(xattrs@) == before.push(self.xattrs@[i as int]@));
            assert(xattr_views(self.xattrs@).take(i + 1) == xattr_views(self.xattrs@).take(
                i as int,
            ).push(self.xattrs@[i as int]@));
            i += 1;
        }
        assert(xattr_views(self.xattrs@).take(i as int) == xattr_views(self.xattrs@));
        FileAttributes {
            name: self.name.clone(),
            type_: self.type_,
            compress: self.compress,
            mode: self.mode,
            uid: self.uid,
            gid: self.gid,
            nlinks: self.nlinks,
            mtime: self.mtime,
            size: self.size,
            inode: self.inode,
            bpc_digest: BpcDigest {
                len: self.bpc_digest.len,
                digest: self.bpc_digest.digest.clone(),
            },
            xattr_num_entries: self.xattr_num_entries,
            xattrs,
        }
    }
}

/// The text that a record's bytes stand for: their characters where they
/// are UTF-8, else nothing.
pub open spec fn lenient_text(bytes: Seq<u8>) -> Seq<char> {
    if valid_utf8(bytes) {
        decode_utf8(bytes)
    } else {
        Seq::<char>::empty()
    }
}

/// `String::from_utf8` reads bytes as text: it succeeds exactly on UTF-8 and
/// then gives the characters that the bytes encode.
#[verifier::external_body]
fn utf8_text(bytes: Vec<u8>) -> (r: Option<String>)
    ensures
        r is Some <==> valid_utf8(bytes@),
        r matches Some(s) ==> s@ == decode_utf8(bytes@),
{
    String::from_utf8(bytes).ok()
}

/// Reads bytes as text, tolerantly.
fn text_of(bytes: Vec<u8>) -> (s: String)
    ensures
        s@ == lenient_text(bytes@),
{
    match utf8_text(bytes) {
        Some(s) => s,
        None => String::new(),
    }
}

/// The kind that a type code of at most ten stands for.
pub open spec fn type_of_code(code: nat) -> FileType {
    if code == 0 {
        FileType::File
    } else if code == 1 {
        FileType::Hardlink
    } else if code == 2 {
        FileType::Symlink
    } else if code == 3 {
        FileType::Chardev
    } else if code == 4 {
        FileType::Blockdev
    } else if code == 5 {
        FileType::Dir
    } else if code == 6 {
        FileType::Fifo
    } else if code == 8 {
        FileType::Socket
    } else if code == 10 {
        FileType::Deleted
    } else {
        FileType::Unknown
    }
}

/// The extended attribute at the cursor: the length of the key, the key, the
/// length of the value, the value.
pub open spec fn xattr_at(c: Cursor) -> XattrView {
    let key_len = uint_at(c);
    let c1 = after_uint(c, usize::MAX as nat, PoolError::Overflow);
    let key = bytes_at(c1, key_len);
    let c2 = after_bytes(c1, key_len);
    let value_len = uint_at(c2);
    let c3 = after_uint(c2, usize::MAX as nat, PoolError::Overflow);
    let value = bytes_at(c3, value_len);
    XattrView { key: lenient_text(key), value: lenient_text(value) }
}

/// The cursor after one extended attribute.
pub open spec fn after_xattr(c: Cursor) -> Cursor {
    let key_len = uint_at(c);
    let c1 = after_uint(c, usize::MAX as nat, PoolError::Overflow);
    let c2 = after_bytes(c1, key_len);
    let value_len = uint_at(c2);
    let c3 = after_uint(c2, usize::MAX as nat, PoolError::Overflow);
    after_bytes(c3, value_len)
}

/// The next `n` extended attributes at the cursor.
pub open spec fn xattrs_at(c: Cursor, n: nat) -> Seq<XattrView>
    decreases n,
{
    if n == 0 {
        Seq::<XattrView>::empty()
    } else {
        seq![xattr_at(c)] + xattrs_at(after_xattr(c), (n - 1) as nat)
    }
}

/// The cursor after `n` extended attributes.
pub open spec fn after_xattrs(c: Cursor, n: nat) -> Cursor
    decreases n,
{
    if c is Failed || n == 0 {
        c
    } else {
        after_xattrs(after_xattr(c), (n - 1) as nat)
    }
}

/// The most bytes that a digest has.
pub const MAX_DIGEST_LEN: u64 = 64;

/// Whether a digest can have `len` bytes: none, or two and more up to the
/// most that a digest has.
pub open spec fn digest_length_ok(len: nat) -> bool {
    len == 0 || 2 <= len <= MAX_DIGEST_LEN
}

/// The cursor after the length of a digest. A length that no digest has
/// fails with `CorruptData`, as a malformed varint does.
pub open spec fn after_digest_len(c: Cursor) -> Cursor {
    let next = after_uint(c, MAX_DIGEST_LEN as nat, PoolError::CorruptData);
    if next is At && !digest_length_ok(uint_at(c)) {
        Cursor::Failed(PoolError::CorruptData)
    } else {
        next
    }
}

/// The record at the start of `s`, field by field, and the cursor after it.
/// The first field that cannot be read fails the record.
#[verifier::opaque]
pub open spec fn parse_record(s: Seq<u8>) -> (FileRecord, Cursor) {
    let c0 = Cursor::At(s);
    let name_len = uint_at(c0);
    let c1 = after_uint(c0, usize::MAX as nat, PoolError::Overflow);
    let name = bytes_at(c1, name_len);
    let c2 = after_bytes(c1, name_len);
    let xattr_num_entries = uint_at(c2);
    let c3 = after_uint(c2, u64::MAX as nat, PoolError::Overflow);
    let type_code = uint_at(c3);
    let c4 = after_uint(c3, 10, PoolError::CorruptData);
    let mtime = uint_at(c4);
    let c5 = after_uint(c4, u64::MAX as nat, PoolError::Overflow);
    let mode = uint_at(c5);
    let c6 = after_uint(c5, u16::MAX as nat, PoolError::Overflow);
    let uid = uint_at(c6);
    let c7 = after_uint(c6, u32::MAX as nat, PoolError::Overflow);
    let gid = uint_at(c7);
    let c8 = after_uint(c7, u32::MAX as nat, PoolError::Overflow);
    let size = uint_at(c8);
    let c9 = after_uint(c8, u64::MAX as nat, PoolError::Overflow);
    let inode = uint_at(c9);
    let c10 = after_uint(c9, u64::MAX as nat, PoolError::Overflow);
    let compress = uint_at(c10);
    let c11 = after_uint(c10, u64::MAX as nat, PoolError::Overflow);
    let nlinks = uint_at(c11);
    let c12 = after_uint(c11, u32::MAX as nat, PoolError::Overflow);
    let digest_len = uint_at(c12);
    let c13 = after_digest_len(c12);
    let digest = bytes_at(c13, digest_len);
    let c14 = after_bytes(c13, digest_len);
    let xattrs = xattrs_at(c14, xattr_num_entries);
    let c15 = after_xattrs(c14, xattr_num_entries);
    (
        FileRecord {
            name: lenient_text(name),
            type_: type_of_code(type_code),
            compress: compress as u64,
            mode: mode as u16,
            uid: uid as u32,
            gid: gid as u32,
            nlinks: nlinks as u32,
            mtime: mtime as u64,
            size: size as u64,
            inode: inode as u64,
            digest_len: digest_len as u64,
            digest,
            xattr_num_entries: xattr_num_entries as u64,
            xattrs,
        },
        c15,
    )
}

/// The kind that a type code stands for; nothing for a code above ten.
fn kind_of_code(code: u64) -> (r: Option<FileType>)
    ensures
        code <= 10 ==> r == Some(type_of_code(code as nat)),
        code > 10 ==> r is None,
{
    if code == 0 {
        Some(FileType::File)
    } else if code == 1 {
        Some(FileType::Hardlink)
    } else if code == 2 {
        Some(FileType::Symlink)
    } else if code == 3 {
        Some(FileType::Chardev)
    } else if code == 4 {
        Some(FileType::Blockdev)
    } else if code == 5 {
        Some(FileType::Dir)
    } else if code == 6 {
        Some(FileType::Fifo)
    } else if code == 8 {
        Some(FileType::Socket)
    } else if code == 10 {
        Some(FileType::Deleted)
    } else if code == 7 || code == 9 {
        Some(FileType::Unknown)
    } else {
        None
    }
}

impl<'a> ByteReader<'a> {
    /// Reads a length and that many bytes of text.
    fn read_text(&mut self) -> (r: Result<String, PoolError>)
        ensures
            ({
                let c0 = Cursor::At(old(self)@);
                let c1 = after_uint(c0, usize::MAX as nat, PoolError::Overflow);
                match after_bytes(c1, uint_at(c0)) {
                    Cursor::At(rest) => r matches Ok(t) && t@ == lenient_text(
                        bytes_at(c1, uint_at(c0)),
                    ) && final(self)@ == rest,
                    Cursor::Failed(e) => r == Err::<String, PoolError>(e),
                }
            }),
    {
        let len = self.read_varint_usize()?;
        let bytes = self.read_exact(len)?;
        Ok(text_of(bytes))
    }

    /// Reads one extended attribute.
    fn read_xattr(&mut self) -> (r: Result<XattrEntry, PoolError>)
        ensures
            match after_xattr(Cursor::At(old(self)@)) {
                Cursor::At(rest) => r matches Ok(x) && x@ == xattr_at(Cursor::At(old(self)@))
                    && final(self)@ == rest,
                Cursor::Failed(e) => r == Err::<XattrEntry, PoolError>(e),
            },
    {
        let key = self.read_text()?;
        let value = self.read_text()?;
        Ok(XattrEntry { key, value })
    }

    /// Reads `count` extended attributes.
    fn read_xattrs(&mut self, count: u64) -> (r: Result<Vec<XattrEntry>, PoolError>)
        ensures
            match after_xattrs(Cursor::At(old(self)@), count as nat) {
                Cursor::At(rest) => r matches Ok(v) && xattr_views(v@) == xattrs_at(
                    Cursor::At(old(self)@),
                    count as nat,
                ) && final(self)@ == rest,
                Cursor::Failed(e) => r == Err::<Vec<XattrEntry>, PoolError>(e),
            },
    {
        let ghost start = Cursor::At(self@);
        let mut xattrs: Vec<XattrEntry> = Vec::new();
        let mut k: u64 = 0;
        while k < count
            invariant
                k <= count,
                start == Cursor::At(old(self)@),
                after_xattrs(start, count as nat) == after_xattrs(
                    Cursor::At(self@),
                    (count - k) as nat,
                ),
                xattrs_at(start, count as nat) == xattr_views(xattrs@) + xattrs_at(
                    Cursor::At(self@),
                    (count - k) as nat,
                ),
            decreases count - k,
        {
            let ghost here = Cursor::At(self@);
            let ghost before = xattr_views(xattrs@);
            match self.read_xattr() {
                Ok(x) => {
                    xattrs.push(x);
                    proof {
                        assert(xattr_views(xattrs@) == before.push(xattr_at(here)));
                        assert(before + (seq![xattr_at(here)] + xattrs_at(
                            after_xattr(here),
                            (count - k - 1) as nat,
                        )) == before.push(xattr_at(here)) + xattrs_at(
                            after_xattr(here),
                            (count - k - 1) as nat,
                        ));
                    }
                },
                Err(e) => {
                    assert(after_xattrs(Cursor::Failed(e), (count - k - 1) as nat)
                        == Cursor::Failed(e));
                    return Err(e);
                },
            }
            k += 1;
        }
        assert(xattr_views(xattrs@) + Seq::<XattrView>::empty() == xattr_views(xattrs@));
        Ok(xattrs)
    }
}

impl FileAttributes {
    /// Reads one record. On success the reader stands after the record; on
    /// failure it stands where it stood. The digest of a record that is read
    /// has no byte, or two and more up to 64.
    pub fn read_from(reader: &mut ByteReader) -> (r: Result<Self, PoolError>)
        ensures
            match parse_record(old(reader)@).1 {
                Cursor::At(rest) => r matches Ok(f) && f@ == parse_record(old(reader)@).0
                    && final(reader)@ == rest,
                Cursor::Failed(e) => r == Err::<Self, PoolError>(e) && final(reader)@ == old(reader)@,
            },
            r matches Ok(f) ==> digest_length_ok(f@.digest.len()) && f@.digest.len()
                == f@.digest_len,
    {
        proof {
            if parse_record(reader@).1 is At {
                lemma_digest_length(reader@);
            }
        }
        let mut probe = reader.fork();
        match Self::read_fields(&mut probe) {
            Ok(f) => {
                *reader = probe;
                Ok(f)
            },
            Err(e) => Err(e),
        }
    }

    /// Reads the fields of one record, one after the other.
    fn read_fields(reader: &mut ByteReader) -> (r: Result<Self, PoolError>)
        ensures
            match parse_record(old(reader)@).1 {
                Cursor::At(rest) => r matches Ok(f) && f@ == parse_record(old(reader)@).0
                    && final(reader)@ == rest,
                Cursor::Failed(e) => r == Err::<Self, PoolError>(e),
            },
    {
        proof {
            reveal(parse_record);
        }
        let name = reader.read_text()?;
        let xattr_num_entries = reader.read_varint()?;
        let type_ = match kind_of_code(reader.read_varint()?) {
            Some(t) => t,
            None => {
                return Err(PoolError::CorruptData);
            },
        };
        let mtime = reader.read_varint()?;
        let mode = reader.read_varint_u16()?;
        let uid = reader.read_varint_u32()?;
        let gid = reader.read_varint_u32()?;
        let size = reader.read_varint()?;
        let inode = reader.read_varint()?;
        let compress = reader.read_varint()?;
        let nlinks = reader.read_varint_u32()?;
        let digest_len = reader.read_varint()?;
        if digest_len == 1 || digest_len > MAX_DIGEST_LEN {
            return Err(PoolError::CorruptData);
        }
        let digest = reader.read_exact(digest_len as usize)?;
        let xattrs = reader.read_xattrs(xattr_num_entries)?;
        Ok(
            FileAttributes {
                name,
                type_,
                compress,
                mode,
                uid,
                gid,
                nlinks,
                mtime,
                size,
                inode,
                bpc_digest: BpcDigest { len: digest_len, digest },
                xattr_num_entries,
                xattrs,
            },
        )
    }
}

/// Reading extended attributes leaves no more bytes than there were.
proof fn lemma_after_xattrs_within(c: Cursor, n: nat, len: nat)
    requires
        within(c, len),
    ensures
        within(after_xattrs(c, n), len),
    decreases n,
{
    if c is At && n > 0 {
        let c1 = after_uint(c, usize::MAX as nat, PoolError::Overflow);
        lemma_after_uint_within(c, usize::MAX as nat, PoolError::Overflow, len);
        let c2 = after_bytes(c1, uint_at(c));
        lemma_after_uint_within(c2, usize::MAX as nat, PoolError::Overflow, len);
        lemma_after_xattrs_within(after_xattr(c), (n - 1) as nat, len);
    }
}

/// A record that can be read takes at least one byte.
pub proof fn lemma_record_consumes(s: Seq<u8>)
    ensures
        parse_record(s).1 matches Cursor::At(rest) ==> rest.len() < s.len(),
{
    reveal(parse_record);
    let len = s.len();
    let c0 = Cursor::At(s);
    let c1 = after_uint(c0, usize::MAX as nat, PoolError::Overflow);
    lemma_after_uint_within(c0, usize::MAX as nat, PoolError::Overflow, len);
    if c1 is At {
        let less = (len - 1) as nat;
        let c2 = after_bytes(c1, uint_at(c0));
        let c3 = after_uint(c2, u64::MAX as nat, PoolError::Overflow);
        lemma_after_uint_within(c2, u64::MAX as nat, PoolError::Overflow, less);
        let c4 = after_uint(c3, 10, PoolError::CorruptData);
        lemma_after_uint_within(c3, 10, PoolError::CorruptData, less);
        let c5 = after_uint(c4, u64::MAX as nat, PoolError::Overflow);
        lemma_after_uint_within(c4, u64::MAX as nat, PoolError::Overflow, less);
        let c6 = after_uint(c5, u16::MAX as nat, PoolError::Overflow);
        lemma_after_uint_within(c5, u16::MAX as nat, PoolError::Overflow, less);
        let c7 = after_uint(c6, u32::MAX as nat, PoolError::Overflow);
        lemma_after_uint_within(c6, u32::MAX as nat, PoolError::Overflow, less);
        let c8 = after_uint(c7, u32::MAX as nat, PoolError::Overflow);
        lemma_after_uint_within(c7, u32::MAX as nat, PoolError::Overflow, less);
        let c9 = after_uint(c8, u64::MAX as nat, PoolError::Overflow);
        lemma_after_uint_within(c8, u64::MAX as nat, PoolError::Overflow, less);
        let c10 = after_uint(c9, u64::MAX as nat, PoolError::Overflow);
        lemma_after_uint_within(c9, u64::MAX as nat, PoolError::Overflow, less);
        let c11 = after_uint(c10, u64::MAX as nat, PoolError::Overflow);
        lemma_after_uint_within(c10, u64::MAX as nat, PoolError::Overflow, less);
        let c12 = after_uint(c11, u32::MAX as nat, PoolError::Overflow);
        lemma_after_uint_within(c11, u32::MAX as nat, PoolError::Overflow, less);
        let c13 = after_digest_len(c12);
        lemma_after_uint_within(c12, MAX_DIGEST_LEN as nat, PoolError::CorruptData, less);
        let c14 = after_bytes(c13, uint_at(c12));
        lemma_after_xattrs_within(c14, uint_at(c2), less);
    }
}

/// The digest of every record that can be read has no byte, or two and more
/// up to 64, and as many as the record's length field says.
pub proof fn lemma_digest_length(s: Seq<u8>)
    requires
        parse_record(s).1 is At,
    ensures
        digest_length_ok(parse_record(s).0.digest.len()),
        parse_record(s).0.digest.len() == parse_record(s).0.digest_len,
{
    reveal(parse_record);
}

/// The records that follow one another from the start of `s`, and what is
/// left where reading stops: at the end of the bytes or before the first
/// record that cannot be read.
pub open spec fn records_at(s: Seq<u8>) -> (Seq<FileRecord>, Seq<u8>)
    decreases s.len(),
{
    if s.len() == 0 {
        (Seq::<FileRecord>::empty(), s)
    } else {
        match parse_record(s).1 {
            Cursor::At(rest) => if rest.len() < s.len() {
                (seq![parse_record(s).0] + records_at(rest).0, records_at(rest).1)
            } else {
                (seq![parse_record(s).0], rest)
            },
            Cursor::Failed(_) => (Seq::<FileRecord>::empty(), s),
        }
    }
}

/// Every digest of the records of an attribute file has no byte, or two and
/// more up to 64.
pub proof fn lemma_file_digests(s: Seq<u8>)
    ensures
        forall|i: int|
            0 <= i < records_at(s).0.len() ==> digest_length_ok(
                (#[trigger] records_at(s).0[i]).digest.len(),
            ),
    decreases s.len(),
{
    if s.len() > 0 {
        if let Cursor::At(rest) = parse_record(s).1 {
            lemma_digest_length(s);
            let first = parse_record(s).0;
            if rest.len() < s.len() {
                lemma_file_digests(rest);
                let all = records_at(s).0;
                assert(all == seq![first] + records_at(rest).0);
                assert forall|i: int| 0 <= i < all.len() implies digest_length_ok(
                    (#[trigger] all[i]).digest.len(),
                ) by {
                    if i > 0 {
                        assert(all[i] == records_at(rest).0[i - 1]);
                    }
                }
            }
        }
    }
}

/// Whether `s` starts with the magic number of attribute files.
pub open spec fn has_magic(s: Seq<u8>) -> bool {
    s.len() >= 4 && be32(s.take(4)) == BPC_ATTRIB_TYPE_XATTR
}

/// The records of one attribute file.
#[derive(Debug)]
pub struct AttributeFile {
    pub attributes: Vec<FileAttributes>,
}

impl AttributeFile {
    /// Reads an attribute file: the magic number, then records up to the end
    /// of the bytes or to the first record that cannot be read. Bytes that do
    /// not start with the magic number fail with `InvalidMagic`, and nothing
    /// is read then.
    pub fn read_from(reader: &mut ByteReader) -> (r: Result<Self, PoolError>)
        ensures
            has_magic(old(reader)@) ==> (r matches Ok(file) && records(file.attributes@)
                == records_at(old(reader)@.skip(4)).0 && final(reader)@ == records_at(
                old(reader)@.skip(4),
            ).1),
            !has_magic(old(reader)@) ==> r == Err::<Self, PoolError>(PoolError::InvalidMagic)
                && final(reader)@ == old(reader)@,
    {
        let mut probe = reader.fork();
        match probe.read_u32_be() {
            Ok(magic) => {
                if magic != BPC_ATTRIB_TYPE_XATTR {
                    return Err(PoolError::InvalidMagic);
                }
            },
            Err(_) => {
                return Err(PoolError::InvalidMagic);
            },
        }
        *reader = probe;
        let ghost body = reader@;
        let mut attributes: Vec<FileAttributes> = Vec::new();
        while !reader.is_empty()
            invariant
                has_magic(old(reader)@),
                body == old(reader)@.skip(4),
                records_at(body).0 == records(attributes@) + records_at(reader@).0,
                records_at(body).1 == records_at(reader@).1,
            decreases reader@.len(),
        {
            let ghost here = reader@;
            let ghost before = records(attributes@);
            proof {
                lemma_record_consumes(here);
            }
            match FileAttributes::read_from(reader) {
                Ok(attr) => {
                    attributes.push(attr);
                    proof {
                        let rec = parse_record(here).0;
                        assert(records(attributes@) == before.push(rec));
                        assert(before + (seq![rec] + records_at(reader@).0) == before.push(rec)
                            + records_at(reader@).0);
                    }
                },
                Err(_) => {
                    assert(records(attributes@) + Seq::<FileRecord>::empty() == records(
                        attributes@,
                    ));
                    return Ok(AttributeFile { attributes });
                },
            }
        }
        assert(records(attributes@) + Seq::<FileRecord>::empty() == records(attributes@));
        Ok(AttributeFile { attributes })
    }
}

} // verus!
