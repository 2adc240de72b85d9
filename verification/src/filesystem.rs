//! The tree as a file system: inodes, the entries of directories, open
//! files.
use vstd::prelude::*;
use vstd::utf8::encode_utf8;
use std::collections::HashMap;
use crate::cache::{
    attr_cache_entries, attr_cache_get, attr_cache_limit, attr_cache_new, attr_cache_put, every,
    key_index, lemma_key_index, lemma_put_keeps, lemma_put_then_lookup, lemma_touched_keeps,
    lookup, touched, AttrCache, AttrEntry,
};
use crate::decode_attribut::{records, FileAttributes, FileRecord, FileType};
use crate::error::PoolError;
use crate::sorting::{name_le, names_ascend};
use crate::stream::{expected_read, read_start, OpenedFile, PoolStream};
use crate::text::{join, join_with, same_text, views};
use crate::merge::position;
use crate::view::{
    content_of, empty_md5, list_key, parent_key, strs, BackupPC, FileSource,
};

verus! {

/// How long, in seconds, the kernel may keep what it was told of a host.
pub const TTL_HOST: u64 = 86_400;

/// How long, in seconds, the kernel may keep what it was told of a backup.
pub const TTL_BACKUPS: u64 = 3_600;

/// How long, in seconds, the kernel may keep what it was told of anything
/// deeper in the tree.
pub const TTL_REST: u64 = 1_000_000;

/// The number of directories whose entries are kept.
pub const CACHE_SIZE: usize = 2048;

/// The inode of the root of the tree.
pub const ROOT_INO: u64 = 1;

/// The kind of a file as the kernel knows it.
#[derive(Debug, Clone, Copy, PartialEq, Eq, Hash, Structural)]
pub enum FileKind {
    /// Named pipe.
    NamedPipe,
    /// Character device.
    CharDevice,
    /// Block device.
    BlockDevice,
    /// Directory.
    Directory,
    /// Regular file.
    RegularFile,
    /// Symbolic link.
    Symlink,
    /// Socket.
    Socket,
}

/// What the kernel is told of a file. The times are in seconds since the
/// epoch.
#[derive(Debug, Clone, Copy, PartialEq, Eq)]
pub struct FileAttr {
    pub ino: u64,
    pub size: u64,
    pub blocks: u64,
    pub blksize: u32,
    pub atime: u64,
    pub mtime: u64,
    pub ctime: u64,
    pub crtime: u64,
    pub kind: FileKind,
    pub perm: u16,
    pub nlink: u32,
    pub uid: u32,
    pub gid: u32,
    pub rdev: u32,
    pub flags: u32,
}

/// An entry of a directory: its name and what the kernel is told of it.
#[derive(Clone, Debug)]
pub struct BackupPCFileAttribute {
    pub name: String,
    pub attr: FileAttr,
}

/// An entry of a directory as a value.
pub struct NamedAttr {
    pub name: Seq<char>,
    pub attr: FileAttr,
}

impl View for BackupPCFileAttribute {
    type V = NamedAttr;

    open spec fn view(&self) -> NamedAttr {
        NamedAttr { name: self.name@, attr: self.attr }
    }
}

/// The entries of a vector as values.
pub open spec fn named_attrs(v: Seq<BackupPCFileAttribute>) -> Seq<NamedAttr> {
    Seq::new(v.len(), |i: int| v[i]@)
}

/// The kind of a file as the kernel knows it: a hard link is a regular
/// file, and so is what has no kind of its own.
pub open spec fn kind_of(t: FileType) -> FileKind {
    match t {
        FileType::Symlink => FileKind::Symlink,
        FileType::Chardev => FileKind::CharDevice,
        FileType::Blockdev => FileKind::BlockDevice,
        FileType::Dir => FileKind::Directory,
        FileType::Fifo => FileKind::NamedPipe,
        FileType::Socket => FileKind::Socket,
        _ => FileKind::RegularFile,
    }
}

/// What the kernel is told of a record under the inode `ino`.
pub open spec fn attr_of(r: FileRecord, ino: u64) -> FileAttr {
    FileAttr {
        ino,
        size: r.size,
        blocks: r.size / 512,
        blksize: 512,
        atime: r.mtime,
        mtime: r.mtime,
        ctime: r.mtime,
        crtime: r.mtime,
        kind: kind_of(r.type_),
        perm: r.mode,
        nlink: r.nlinks,
        uid: r.uid,
        gid: r.gid,
        rdev: 0,
        flags: 0,
    }
}

/// What the kernel is told of the root of the tree.
pub open spec fn root_attr_spec() -> FileAttr {
    FileAttr {
        ino: 1,
        size: 0,
        blocks: 0,
        blksize: 0,
        atime: 0,
        mtime: 0,
        ctime: 0,
        crtime: 0,
        kind: FileKind::Directory,
        perm: 0o755,
        nlink: 1,
        uid: 1,
        gid: 1,
        rdev: 0,
        flags: 0,
    }
}

/// What the kernel is told of the root of the tree.
pub fn root_attr() -> (a: FileAttr)
    ensures
        a == root_attr_spec(),
{
    FileAttr {
        ino: 1,
        size: 0,
        blocks: 0,
        blksize: 0,
        atime: 0,
        mtime: 0,
        ctime: 0,
        crtime: 0,
        kind: FileKind::Directory,
        perm: 0o755,
        nlink: 1,
        uid: 1,
        gid: 1,
        rdev: 0,
        flags: 0,
    }
}

/// How long the kernel may keep what it was told of the entries of a
/// directory at `depth` components below the root.
pub open spec fn ttl_of(depth: nat) -> u64 {
    if depth == 0 {
        TTL_HOST
    } else if depth == 1 {
        TTL_BACKUPS
    } else {
        TTL_REST
    }
}

/// How long the kernel may keep what it was told of the entries of a
/// directory at `depth` components below the root.
pub fn ttl_for(depth: usize) -> (ttl: u64)
    ensures
        ttl == ttl_of(depth as nat),
{
    if depth == 0 {
        TTL_HOST
    } else if depth == 1 {
        TTL_BACKUPS
    } else {
        TTL_REST
    }
}

impl BackupPCFileAttribute {
    /// The entry of a record under the inode `child_ino`.
    pub fn from_file_attribute(file: FileAttributes, child_ino: u64) -> (e: Self)
        ensures
            e@ == (NamedAttr { name: file@.name, attr: attr_of(file@, child_ino) }),
    {
        let kind = match file.type_ {
            FileType::Symlink => FileKind::Symlink,
            FileType::Chardev => FileKind::CharDevice,
            FileType::Blockdev => FileKind::BlockDevice,
            FileType::Dir => FileKind::Directory,
            FileType::Fifo => FileKind::NamedPipe,
            FileType::Socket => FileKind::Socket,
            _ => FileKind::RegularFile,
        };
        BackupPCFileAttribute {
            name: file.name,
            attr: FileAttr {
                ino: child_ino,
                size: file.size,
                blocks: file.size / 512,
                blksize: 512,
                atime: file.mtime,
                mtime: file.mtime,
                ctime: file.mtime,
                crtime: file.mtime,
                kind,
                perm: file.mode,
                nlink: file.nlinks,
                uid: file.uid,
                gid: file.gid,
                rdev: 0,
                flags: 0,
            },
        }
    }

    /// A copy of this entry.
    pub fn copy(&self) -> (e: Self)
        ensures
            e@ == self@,
    {
        BackupPCFileAttribute { name: self.name.clone(), attr: self.attr }
    }
}

/// What an inode stands for: a path in the tree, and the inode of the
/// directory that holds it.
#[derive(Debug, Default)]
pub struct CacheElement {
    pub path: Vec<String>,
    pub parent_ino: u64,
}

/// What an inode stands for, as a value.
pub struct ElementView {
    pub path: Seq<Seq<char>>,
    pub parent_ino: u64,
}

impl View for CacheElement {
    type V = ElementView;

    open spec fn view(&self) -> ElementView {
        ElementView { path: views(self.path@), parent_ino: self.parent_ino }
    }
}

impl CacheElement {
    /// Whether two elements stand for the same path under the same
    /// directory.
    pub fn same(&self, other: &CacheElement) -> (r: bool)
        ensures
            r == (self@ == other@),
    {
        if self.parent_ino != other.parent_ino || self.path.len() != other.path.len() {
            assert(self.path.len() != other.path.len() ==> views(self.path@).len() != views(
                other.path@,
            ).len());
            return false;
        }
        let mut i: usize = 0;
        while i < self.path.len()
            invariant
                i <= self.path.len(),
                self.path.len() == other.path.len(),
                forall|k: int| 0 <= k < i ==> self.path@[k]@ == other.path@[k]@,
            decreases self.path.len() - i,
        {
            if !same_text(self.path[i].as_str(), other.path[i].as_str()) {
                assert(views(self.path@)[i as int] != views(other.path@)[i as int]);
                return false;
            }
            i += 1;
        }
        assert(views(self.path@) =~= views(other.path@));
        true
    }

    /// A copy of this element.
    pub fn copy(&self) -> (r: CacheElement)
        ensures
            r@ == self@,
    {
        let mut path: Vec<String> = Vec::new();
        let mut i: usize = 0;
        while i < self.path.len()
            invariant
                i <= self.path.len(),
                path.len() == i,
                forall|k: int| 0 <= k < i ==> path@[k]@ == self.path@[k]@,
            decreases self.path.len() - i,
        {
            path.push(self.path[i].clone());
            i += 1;
        }
        assert(views(path@) =~= views(self.path@));
        CacheElement { path, parent_ino: self.parent_ino }
    }
}

/// The hash of xxHash in 64 bits, with the seed zero, of `bytes`.
pub uninterp spec fn xxhash64(bytes: Seq<u8>) -> u64;

/// `twox_hash::XxHash64::oneshot` gives the xxHash in 64 bits of `data`,
/// here with the seed zero.
#[verifier::external_body]
fn hash_bytes(data: &[u8]) -> (h: u64)
    ensures
        h == xxhash64(data@),
{
    twox_hash::XxHash64::oneshot(0, data)
}

/// `rand::random` draws a number of 64 bits.
#[verifier::external_body]
fn random_u64() -> u64 {
    rand::random::<u64>()
}

/// The number of slots that are tried by squares for an inode, before the
/// slots are tried one by one.
pub const PROBE_LIMIT: u64 = 0x20_0000;

/// The number of handles that are drawn for an opened file.
pub const HANDLE_DRAWS: u32 = 64;

/// The slot that is tried at the `k`-th step for the hash `h`: each step
/// goes on by the square of its number, around the end of the numbers.
pub open spec fn probe_slot(h: u64, k: nat) -> u64
    decreases k,
{
    if k == 0 {
        h
    } else {
        ((probe_slot(h, (k - 1) as nat) + k * k) % 0x1_0000_0000_0000_0000) as u64
    }
}

/// The hash under which the inode of a path is looked for first: that of
/// the components of the path with slashes between them.
pub open spec fn path_hash(path: Seq<Seq<char>>) -> u64 {
    xxhash64(encode_utf8(join_with(path, '/')))
}

/// Whether the inode `slot` can stand for `e`: it is free, or stands for
/// `e` already.
pub open spec fn usable(m: Map<u64, CacheElement>, slot: u64, e: ElementView) -> bool {
    !m.contains_key(slot) || m[slot]@ == e
}

/// The first step, below the limit, at which a usable slot is found.
pub open spec fn first_usable(m: Map<u64, CacheElement>, h: u64, e: ElementView, k: nat) -> bool {
    &&& k < PROBE_LIMIT
    &&& usable(m, probe_slot(h, k), e)
    &&& forall|j: nat| j < k ==> !usable(m, #[trigger] probe_slot(h, j), e)
}

/// The sum of the squares of the numbers up to `k`: how far the `k`-th
/// step lies from the hash.
pub open spec fn square_sum(k: nat) -> nat
    decreases k,
{
    if k == 0 {
        0
    } else {
        square_sum((k - 1) as nat) + k * k
    }
}

/// The sum of the first `k` squares is at most the cube of `k`.
proof fn lemma_square_sum_bound(k: nat)
    ensures
        square_sum(k) <= k * k * k,
    decreases k,
{
    if k > 0 {
        lemma_square_sum_bound((k - 1) as nat);
        assert((k - 1) * (k - 1) * (k - 1) + k * k <= k * k * k) by (nonlinear_arith)
            requires
                k >= 1,
        ;
    }
}

/// The sum of squares grows with every step.
proof fn lemma_square_sum_grows(j: nat, k: nat)
    requires
        j < k,
    ensures
        square_sum(j) < square_sum(k),
    decreases k,
{
    assert(k * k >= 1) by (nonlinear_arith)
        requires
            k >= 1,
    ;
    if j < k - 1 {
        lemma_square_sum_grows(j, (k - 1) as nat);
    }
}

/// The slot of a step lies the sum of the squares behind the hash, around
/// the end of the numbers.
proof fn lemma_probe_slot(h: u64, k: nat)
    ensures
        probe_slot(h, k) == (h + square_sum(k)) % 0x1_0000_0000_0000_0000,
    decreases k,
{
    if k > 0 {
        lemma_probe_slot(h, (k - 1) as nat);
        let before = h + square_sum((k - 1) as nat);
        vstd::arithmetic::div_mod::lemma_add_mod_noop(
            before as int,
            (k * k) as int,
            0x1_0000_0000_0000_0000,
        );
        vstd::arithmetic::div_mod::lemma_mod_twice(before as int, 0x1_0000_0000_0000_0000);
        assert(((k * k) as int) % 0x1_0000_0000_0000_0000 + 0 == ((k * k) as int)
            % 0x1_0000_0000_0000_0000);
        vstd::arithmetic::div_mod::lemma_add_mod_noop(
            (before % 0x1_0000_0000_0000_0000int) as int,
            (k * k) as int,
            0x1_0000_0000_0000_0000,
        );
    }
}

/// Below the limit no two steps try the same slot.
pub proof fn lemma_probe_slots_differ(h: u64, j: nat, k: nat)
    requires
        j < k <= PROBE_LIMIT,
    ensures
        probe_slot(h, j) != probe_slot(h, k),
{
    lemma_probe_slot(h, j);
    lemma_probe_slot(h, k);
    lemma_square_sum_grows(j, k);
    lemma_square_sum_bound(k);
    assert(k * k * k <= 0x20_0000 * 0x20_0000 * 0x20_0000) by (nonlinear_arith)
        requires
            k <= 0x20_0000,
    ;
    let a = (h + square_sum(j)) as int;
    let b = (h + square_sum(k)) as int;
    let m = 0x1_0000_0000_0000_0000int;
    if a % m == b % m {
        vstd::arithmetic::div_mod::lemma_fundamental_div_mod(a, m);
        vstd::arithmetic::div_mod::lemma_fundamental_div_mod(b, m);
        assert(b - a == m * (b / m - a / m)) by (nonlinear_arith)
            requires
                a == m * (a / m) + a % m,
                b == m * (b / m) + b % m,
                a % m == b % m,
        ;
        assert(false) by (nonlinear_arith)
            requires
                b - a == m * (b / m - a / m),
                0 < b - a < m,
                m > 0,
        ;
    }
}

/// The slots that the first `n` steps try.
pub open spec fn probed(h: u64, n: nat) -> Set<u64>
    decreases n,
{
    if n == 0 {
        Set::<u64>::empty()
    } else {
        probed(h, (n - 1) as nat).insert(probe_slot(h, (n - 1) as nat))
    }
}

/// The first `n` steps try `n` slots, no slot twice.
proof fn lemma_probed(h: u64, n: nat)
    requires
        n <= PROBE_LIMIT,
    ensures
        probed(h, n).finite(),
        probed(h, n).len() == n,
        forall|s: u64| #[trigger]
            probed(h, n).contains(s) <==> exists|k: nat| k < n && s == #[trigger] probe_slot(h, k),
    decreases n,
{
    if n > 0 {
        let m = (n - 1) as nat;
        lemma_probed(h, m);
        let slot = probe_slot(h, m);
        if probed(h, m).contains(slot) {
            let k = choose|k: nat| k < m && slot == #[trigger] probe_slot(h, k);
            lemma_probe_slots_differ(h, k, m);
        }
        assert forall|s: u64| #[trigger] probed(h, n).contains(s) implies exists|k: nat|
            k < n && s == #[trigger] probe_slot(h, k) by {
            if s == slot {
                assert(m < n && s == probe_slot(h, m));
            } else {
                let k = choose|k: nat| k < m && s == #[trigger] probe_slot(h, k);
                assert(k < n && s == probe_slot(h, k));
            }
        }
        assert forall|s: u64| (exists|k: nat| k < n && s == #[trigger] probe_slot(h, k))
            implies #[trigger] probed(h, n).contains(s) by {
            let k = choose|k: nat| k < n && s == #[trigger] probe_slot(h, k);
            if k < m {
                assert(probed(h, m).contains(s));
            }
        }
    }
}

/// Where a step finds a usable slot, some step is the first to find one.
proof fn lemma_least_usable(m: Map<u64, CacheElement>, h: u64, e: ElementView, n: nat)
    requires
        n < PROBE_LIMIT,
        usable(m, probe_slot(h, n), e),
    ensures
        exists|k: nat| #[trigger] first_usable(m, h, e, k),
    decreases n,
{
    if forall|j: nat| j < n ==> !usable(m, #[trigger] probe_slot(h, j), e) {
        assert(first_usable(m, h, e, n));
    } else {
        let j = choose|j: nat| j < n && usable(m, #[trigger] probe_slot(h, j), e);
        lemma_least_usable(m, h, e, j);
    }
}

/// While fewer inodes are taken than slots are tried, a usable slot is
/// found for every element.
pub proof fn lemma_usable_slot_exists(m: Map<u64, CacheElement>, h: u64, e: ElementView)
    requires
        m.dom().finite(),
        m.dom().len() < PROBE_LIMIT,
    ensures
        exists|k: nat| #[trigger] first_usable(m, h, e, k),
{
    let limit = PROBE_LIMIT as nat;
    lemma_probed(h, limit);
    if forall|k: nat| k < limit ==> !usable(m, #[trigger] probe_slot(h, k), e) {
        assert forall|s: u64| probed(h, limit).contains(s) implies m.dom().contains(s) by {
            let k = choose|k: nat| k < limit && s == #[trigger] probe_slot(h, k);
            assert(!usable(m, probe_slot(h, k), e));
        }
        assert(probed(h, limit).subset_of(m.dom()));
        vstd::set_lib::lemma_len_subset(probed(h, limit), m.dom());
        assert(false);
    } else {
        let k = choose|k: nat| k < limit && usable(m, #[trigger] probe_slot(h, k), e);
        lemma_least_usable(m, h, e, k);
    }
}

/// The slot that is tried at the `j`-th step of going on one by one from
/// the hash `h`, around the end of the numbers.
pub open spec fn next_slot(h: u64, j: nat) -> u64 {
    ((h + j) % 0x1_0000_0000_0000_0000) as u64
}

/// The first step of going on one by one at which a usable slot is found.
pub open spec fn first_free(m: Map<u64, CacheElement>, h: u64, e: ElementView, j: nat) -> bool {
    &&& j <= u64::MAX
    &&& usable(m, next_slot(h, j), e)
    &&& forall|i: nat| i < j ==> !usable(m, #[trigger] next_slot(h, i), e)
}

/// The slot that is found for an element: the first usable one of those
/// tried by squares from the hash of its path on and, where all of those
/// are taken, the first usable one of those that follow the hash one by
/// one.
pub open spec fn found_slot(m: Map<u64, CacheElement>, e: ElementView, slot: u64) -> bool {
    let h = path_hash(e.path);
    ||| exists|k: nat| #[trigger] first_usable(m, h, e, k) && slot == probe_slot(h, k)
    ||| {
        &&& forall|k: nat| k < PROBE_LIMIT ==> !usable(m, #[trigger] probe_slot(h, k), e)
        &&& exists|j: nat| #[trigger] first_free(m, h, e, j) && slot == next_slot(h, j)
    }
}

/// Going on one by one never tries a slot twice.
proof fn lemma_next_slots_differ(h: u64, i: nat, j: nat)
    requires
        i < j <= u64::MAX,
    ensures
        next_slot(h, i) != next_slot(h, j),
{
    let a = (h + i) as int;
    let b = (h + j) as int;
    let m = 0x1_0000_0000_0000_0000int;
    if a % m == b % m {
        vstd::arithmetic::div_mod::lemma_fundamental_div_mod(a, m);
        vstd::arithmetic::div_mod::lemma_fundamental_div_mod(b, m);
        assert(b - a == m * (b / m - a / m)) by (nonlinear_arith)
            requires
                a == m * (a / m) + a % m,
                b == m * (b / m) + b % m,
                a % m == b % m,
        ;
        assert(false) by (nonlinear_arith)
            requires
                b - a == m * (b / m - a / m),
                0 < b - a < m,
                m > 0,
        ;
    }
}

/// The slots that the first `n` steps of going on one by one try.
pub open spec fn stepped(h: u64, n: nat) -> Set<u64>
    decreases n,
{
    if n == 0 {
        Set::<u64>::empty()
    } else {
        stepped(h, (n - 1) as nat).insert(next_slot(h, (n - 1) as nat))
    }
}

/// The first `n` steps of going on one by one try `n` slots.
proof fn lemma_stepped(h: u64, n: nat)
    requires
        n <= u64::MAX + 1,
    ensures
        stepped(h, n).finite(),
        stepped(h, n).len() == n,
        forall|s: u64| #[trigger]
            stepped(h, n).contains(s) <==> exists|k: nat| k < n && s == #[trigger] next_slot(h, k),
    decreases n,
{
    if n > 0 {
        let m = (n - 1) as nat;
        lemma_stepped(h, m);
        let slot = next_slot(h, m);
        if stepped(h, m).contains(slot) {
            let k = choose|k: nat| k < m && slot == #[trigger] next_slot(h, k);
            lemma_next_slots_differ(h, k, m);
        }
        assert forall|s: u64| #[trigger] stepped(h, n).contains(s) implies exists|k: nat|
            k < n && s == #[trigger] next_slot(h, k) by {
            if s == slot {
                assert(m < n && s == next_slot(h, m));
            } else {
                let k = choose|k: nat| k < m && s == #[trigger] next_slot(h, k);
                assert(k < n && s == next_slot(h, k));
            }
        }
        assert forall|s: u64| (exists|k: nat| k < n && s == #[trigger] next_slot(h, k))
            implies #[trigger] stepped(h, n).contains(s) by {
            let k = choose|k: nat| k < n && s == #[trigger] next_slot(h, k);
            if k < m {
                assert(stepped(h, m).contains(s));
            }
        }
    }
}

/// Steps that all find taken slots are no more than there are inodes.
proof fn lemma_taken_steps(m: Map<u64, CacheElement>, h: u64, e: ElementView, n: nat)
    requires
        m.dom().finite(),
        n <= u64::MAX + 1,
        forall|i: nat| i < n ==> !usable(m, #[trigger] next_slot(h, i), e),
    ensures
        n <= m.dom().len(),
{
    lemma_stepped(h, n);
    assert forall|s: u64| stepped(h, n).contains(s) implies m.dom().contains(s) by {
        let k = choose|k: nat| k < n && s == #[trigger] next_slot(h, k);
        assert(!usable(m, next_slot(h, k), e));
    }
    assert(stepped(h, n).subset_of(m.dom()));
    vstd::set_lib::lemma_len_subset(stepped(h, n), m.dom());
}

/// Where a step of going on one by one finds a usable slot, some step is
/// the first to find one.
proof fn lemma_least_free(m: Map<u64, CacheElement>, h: u64, e: ElementView, n: nat)
    requires
        n <= u64::MAX,
        usable(m, next_slot(h, n), e),
    ensures
        exists|j: nat| #[trigger] first_free(m, h, e, j),
    decreases n,
{
    if forall|i: nat| i < n ==> !usable(m, #[trigger] next_slot(h, i), e) {
        assert(first_free(m, h, e, n));
    } else {
        let i = choose|i: nat| i < n && usable(m, #[trigger] next_slot(h, i), e);
        lemma_least_free(m, h, e, i);
    }
}

/// A slot is found for every element, however many inodes are taken.
pub proof fn lemma_slot_is_found(m: Map<u64, CacheElement>, e: ElementView)
    requires
        m.dom().finite(),
        m.dom().len() <= u64::MAX,
    ensures
        exists|slot: u64| #[trigger] found_slot(m, e, slot),
{
    let h = path_hash(e.path);
    if exists|k: nat| k < PROBE_LIMIT && usable(m, #[trigger] probe_slot(h, k), e) {
        let k = choose|k: nat| k < PROBE_LIMIT && usable(m, #[trigger] probe_slot(h, k), e);
        lemma_least_usable(m, h, e, k);
        let first = choose|first: nat| #[trigger] first_usable(m, h, e, first);
        assert(found_slot(m, e, probe_slot(h, first)));
    } else {
        let n = m.dom().len() + 1;
        if forall|i: nat| i < n ==> !usable(m, #[trigger] next_slot(h, i), e) {
            lemma_taken_steps(m, h, e, n);
            assert(false);
        }
        let i = choose|i: nat| i < n && usable(m, #[trigger] next_slot(h, i), e);
        lemma_least_free(m, h, e, i);
        let first = choose|first: nat| #[trigger] first_free(m, h, e, first);
        assert(found_slot(m, e, next_slot(h, first)));
    }
}

/// Giving an element the slot found for it changes no inode: the slot
/// stands for the element, and every inode stands for what it stood for. So
/// an inode never comes to stand for another element, and two elements that
/// differ never stand under one inode.
pub proof fn lemma_allocation_keeps_inodes(m: Map<u64, CacheElement>, e: CacheElement, slot: u64)
    requires
        found_slot(m, e@, slot),
    ensures
        usable(m, slot, e@),
        m.insert(slot, e)[slot]@ == e@,
        forall|i: u64| #[trigger] m.contains_key(i) ==> m.insert(slot, e)[i]@ == m[i]@,
{
}

/// An entry that a listing of a directory hands to the kernel.
#[derive(Debug, Clone, PartialEq, Eq)]
pub struct DirEntry {
    pub ino: u64,
    pub offset: i64,
    pub kind: FileKind,
    pub name: String,
}

/// An entry handed to the kernel, as a value.
pub struct DirEntryView {
    pub ino: u64,
    pub offset: i64,
    pub kind: FileKind,
    pub name: Seq<char>,
}

impl View for DirEntry {
    type V = DirEntryView;

    open spec fn view(&self) -> DirEntryView {
        DirEntryView { ino: self.ino, offset: self.offset, kind: self.kind, name: self.name@ }
    }
}

/// The entries of a vector as values.
pub open spec fn dir_entry_views(v: Seq<DirEntry>) -> Seq<DirEntryView> {
    Seq::new(v.len(), |i: int| v[i]@)
}

/// The entries `.` and `..` of a directory that is not the root, for a
/// listing that starts at its beginning.
pub open spec fn dot_entries(ino: u64, parent: Option<u64>, offset: i64) -> Seq<DirEntryView> {
    match parent {
        Some(p) => if ino != ROOT_INO && offset == 0 {
            seq![
                DirEntryView { ino, offset: 1, kind: FileKind::Directory, name: seq!['.'] },
                DirEntryView { ino: p, offset: 2, kind: FileKind::Directory, name: seq!['.', '.'] },
            ]
        } else {
            Seq::<DirEntryView>::empty()
        },
        None => Seq::<DirEntryView>::empty(),
    }
}

/// The entries of a directory from the `from`-th on, each at the offset two
/// above its index.
pub open spec fn entries_from(elements: Seq<NamedAttr>, from: int) -> Seq<DirEntryView> {
    Seq::new(
        (elements.len() - from) as nat,
        |i: int|
            DirEntryView {
                ino: elements[from + i].attr.ino,
                offset: (from + i + 2) as i64,
                kind: elements[from + i].attr.kind,
                name: elements[from + i].name,
            },
    )
}

/// The index of the first entry that a listing from `offset` on gives.
pub open spec fn first_index(offset: i64, count: nat) -> int {
    if offset < 2 {
        0
    } else if offset - 1 <= count {
        offset - 1
    } else {
        count as int
    }
}

/// What a listing of a directory from `offset` on hands to the kernel: for
/// a directory that is not the root and a listing from the beginning, the
/// entries `.` and `..`; then the entries whose offset is above `offset`.
pub open spec fn listing_from(
    elements: Seq<NamedAttr>,
    ino: u64,
    parent: Option<u64>,
    offset: i64,
) -> Seq<DirEntryView> {
    dot_entries(ino, parent, offset) + entries_from(elements, first_index(offset, elements.len()))
}

/// The most entries of a directory that have offsets.
pub const MAX_ENTRIES: u64 = 0x7fff_ffff_ffff_0000;

/// What a listing of a directory from `offset` on hands to the kernel. A
/// negative offset, and a directory with more entries than have offsets,
/// fail with `Overflow`.
pub fn dir_entries(
    elements: &Vec<BackupPCFileAttribute>,
    ino: u64,
    parent: Option<u64>,
    offset: i64,
) -> (r: Result<Vec<DirEntry>, PoolError>)
    ensures
        offset < 0 || elements.len() >= MAX_ENTRIES ==> r == Err::<Vec<DirEntry>, PoolError>(
            PoolError::Overflow,
        ),
        offset >= 0 && elements.len() < MAX_ENTRIES ==> (r matches Ok(v) && dir_entry_views(v@)
            == listing_from(named_attrs(elements@), ino, parent, offset)),
        r matches Ok(v) ==> forall|k: int| 0 <= k < v@.len() ==> (#[trigger] v@[k]).offset > offset,
{
    if offset < 0 || elements.len() as u64 >= MAX_ENTRIES {
        return Err(PoolError::Overflow);
    }
    let mut out: Vec<DirEntry> = Vec::new();
    match parent {
        Some(p) => {
            if ino != ROOT_INO && offset == 0 {
                proof {
                    reveal_strlit(".");
                    reveal_strlit("..");
                }
                out.push(DirEntry { ino, offset: 1, kind: FileKind::Directory, name: ".".to_owned() });
                out.push(
                    DirEntry { ino: p, offset: 2, kind: FileKind::Directory, name: "..".to_owned() },
                );
                assert("."@ =~= seq!['.']);
                assert(".."@ =~= seq!['.', '.']);
            }
        },
        None => {},
    }
    let ghost dots = dir_entry_views(out@);
    assert(dots == dot_entries(ino, parent, offset));
    let n = elements.len();
    let from: usize = if offset < 2 {
        0
    } else if offset - 1 <= n as i64 {
        (offset - 1) as usize
    } else {
        n
    };
    let ghost all = entries_from(named_attrs(elements@), from as int);
    let mut i: usize = from;
    assert(all.take(0) == Seq::<DirEntryView>::empty());
    while i < n
        invariant
            from <= i <= n,
            n == elements.len(),
            n < MAX_ENTRIES,
            all == entries_from(named_attrs(elements@), from as int),
            dir_entry_views(out@) == dots + all.take(i - from),
            offset < 2 || from == n || from == offset - 1,
            forall|k: int| 0 <= k < out@.len() ==> (#[trigger] out@[k]).offset > offset,
        decreases n - i,
    {
        let ghost before = dir_entry_views(out@);
        let e = &elements[i];
        out.push(
            DirEntry {
                ino: e.attr.ino,
                offset: i as i64 + 2,
                kind: e.attr.kind,
                name: e.name.clone(),
            },
        );
        assert(dir_entry_views(out@) == before.push(all[i - from]));
        assert(dots + all.take(i - from + 1) == (dots + all.take(i - from)).push(all[i - from]));
        i += 1;
    }
    assert(all.take(i - from) == all);
    Ok(out)
}

/// The element that stands for the entry `name` of the directory `path`
/// with the inode `ino`.
pub open spec fn child_of(path: Seq<Seq<char>>, name: Seq<char>, ino: u64) -> ElementView {
    ElementView { path: path.push(name), parent_ino: ino }
}

/// Whether a record is shown: it is neither deleted nor of unknown kind.
pub open spec fn is_shown(r: FileRecord) -> bool {
    r.type_ != FileType::Unknown && r.type_ != FileType::Deleted
}

/// Whether a record is shown.
pub fn shown(file: &FileAttributes) -> (r: bool)
    ensures
        r == is_shown(file@),
{
    match file.type_ {
        FileType::Unknown => false,
        FileType::Deleted => false,
        _ => true,
    }
}

/// The path that an inode stands for: the empty path for the inode of the
/// root.
pub open spec fn path_of(m: Map<u64, CacheElement>, ino: u64) -> Seq<Seq<char>> {
    if ino == ROOT_INO {
        Seq::<Seq<char>>::empty()
    } else {
        m[ino]@.path
    }
}

/// The inode of the directory that holds what `ino` stands for, where an
/// element was given that inode.
pub open spec fn parent_of(m: Map<u64, CacheElement>, ino: u64) -> Option<u64> {
    if m.contains_key(ino) {
        Some(m[ino].parent_ino)
    } else {
        None
    }
}

/// Whether an inode stands for something: it is the inode of the root, or
/// an element was given it.
pub open spec fn stands(m: Map<u64, CacheElement>, ino: u64) -> bool {
    ino == ROOT_INO || m.contains_key(ino)
}

/// Every entry of the directory with the inode `dir` has an inode that
/// stands for the entry: for its name below the path of the directory.
pub open spec fn registered(m: Map<u64, CacheElement>, dir: u64, entries: Seq<NamedAttr>) -> bool {
    forall|k: int|
        0 <= k < entries.len() ==> m.contains_key((#[trigger] entries[k]).attr.ino)
            && m[entries[k].attr.ino]@ == child_of(path_of(m, dir), entries[k].name, dir)
}

/// Every inode of `before` stands in `after` for what it stood for.
pub open spec fn extends(before: Map<u64, CacheElement>, after: Map<u64, CacheElement>) -> bool {
    forall|i: u64| #[trigger]
        before.contains_key(i) ==> after.contains_key(i) && after[i]@ == before[i]@
}

/// The entries of the directory above the root: the root alone, under the
/// name `..`.
pub open spec fn above_root() -> Seq<NamedAttr> {
    seq![NamedAttr { name: seq!['.', '.'], attr: root_attr_spec() }]
}

/// The entries of a directory that is kept are sound: they are in
/// ascending order of their names and their inodes stand for them; those
/// of the directory above the root are the root alone.
pub open spec fn kept_sound(m: Map<u64, CacheElement>, entry: AttrEntry) -> bool {
    &&& entries_ascend(entry.1)
    &&& entry.0 != 0 ==> stands(m, entry.0) && registered(m, entry.0, entry.1)
    &&& entry.0 == 0 ==> entry.1 == above_root()
}

/// The records of a listing that are shown, in their order.
pub open spec fn shown_records(listing: Seq<FileRecord>) -> Seq<FileRecord>
    decreases listing.len(),
{
    if listing.len() == 0 {
        Seq::<FileRecord>::empty()
    } else if is_shown(listing.last()) {
        shown_records(listing.drop_last()).push(listing.last())
    } else {
        shown_records(listing.drop_last())
    }
}

/// Whether the entries are those of a listing: one entry for each record
/// that is shown, in the order of the listing, with the name of the record
/// and what the kernel is told of it under the inode of the entry.
pub open spec fn shows(entries: Seq<NamedAttr>, listing: Seq<FileRecord>) -> bool {
    &&& entries.len() == shown_records(listing).len()
    &&& forall|k: int|
        0 <= k < entries.len() ==> (#[trigger] entries[k]).name == shown_records(listing)[k].name
            && entries[k].attr == attr_of(shown_records(listing)[k], entries[k].attr.ino)
}

/// The key under which the view keeps the listing of the directory that
/// `ino` stands for.
pub open spec fn dir_key(m: Map<u64, CacheElement>, ino: u64) -> Seq<char> {
    list_key(path_of(m, ino))
}

/// Entries whose inodes stand for them keep them when inodes are added.
pub proof fn lemma_registered_extends(
    before: Map<u64, CacheElement>,
    after: Map<u64, CacheElement>,
    dir: u64,
    entries: Seq<NamedAttr>,
)
    requires
        extends(before, after),
        stands(before, dir),
        registered(before, dir, entries),
    ensures
        stands(after, dir),
        path_of(after, dir) == path_of(before, dir),
        registered(after, dir, entries),
{
    assert forall|k: int| 0 <= k < entries.len() implies after.contains_key(
        (#[trigger] entries[k]).attr.ino,
    ) && after[entries[k].attr.ino]@ == child_of(path_of(after, dir), entries[k].name, dir) by {
        assert(before.contains_key(entries[k].attr.ino));
    }
}

/// The entries that are kept stay sound when inodes are added.
pub proof fn lemma_kept_extends(
    before: Map<u64, CacheElement>,
    after: Map<u64, CacheElement>,
    entries: Seq<AttrEntry>,
)
    requires
        extends(before, after),
        every(entries, |e: AttrEntry| kept_sound(before, e)),
    ensures
        every(entries, |e: AttrEntry| kept_sound(after, e)),
{
    assert forall|i: int| 0 <= i < entries.len() implies kept_sound(
        after,
        #[trigger] entries[i],
    ) by {
        assert(kept_sound(before, entries[i]));
        if entries[i].0 != 0 {
            lemma_registered_extends(before, after, entries[i].0, entries[i].1);
        }
    }
}

/// The names of entries in ascending order.
pub open spec fn entries_ascend(s: Seq<NamedAttr>) -> bool {
    forall|i: int, j: int| 0 <= i < j < s.len() ==> name_le(#[trigger] s[i].name, #[trigger] s[j].name)
}

/// A tree of hosts, backups, shares and directories as a file system:
/// inodes that stay what they are, the entries of directories kept, and
/// the files that are open.
pub struct BackupPCFS {
    view: BackupPC,
    inodes: HashMap<u64, CacheElement>,
    cache: AttrCache,
    opened: HashMap<u64, OpenedFile>,
}

/// The texts of a path, borrowed.
fn borrowed<'a>(path: &'a Vec<String>) -> (refs: Vec<&'a str>)
    ensures
        strs(refs@) == views(path@),
{
    let mut refs: Vec<&'a str> = Vec::new();
    let mut i: usize = 0;
    while i < path.len()
        invariant
            i <= path.len(),
            refs.len() == i,
            forall|k: int| 0 <= k < i ==> refs@[k]@ == path@[k]@,
        decreases path.len() - i,
    {
        refs.push(path[i].as_str());
        i += 1;
    }
    assert(strs(refs@) =~= views(path@));
    refs
}

impl BackupPCFS {
    /// The file system holds together: its view does, every open file
    /// does, and the entries that are kept are in ascending order.
    pub closed spec fn wf(&self) -> bool {
        &&& self.view.wf()
        &&& attr_cache_limit(self.cache) > 0
        &&& every(attr_cache_entries(self.cache), |e: AttrEntry| kept_sound(self.inodes@, e))
        &&& forall|fh: u64| self.opened@.contains_key(fh) ==> (#[trigger] self.opened@[fh]).wf()
    }

    /// What each inode stands for.
    pub closed spec fn inodes(&self) -> Map<u64, CacheElement> {
        self.inodes@
    }

    /// The directories whose entries are kept, each with its inode, the one
    /// used last first.
    pub closed spec fn kept_entries(&self) -> Seq<AttrEntry> {
        attr_cache_entries(self.cache)
    }

    /// The entries that are kept of the directory with the inode `ino`.
    pub open spec fn kept(&self, ino: u64) -> Option<Seq<NamedAttr>> {
        lookup(self.kept_entries(), ino)
    }

    /// The entries of the directory with the inode `ino` as far as they are
    /// known without listing anything: those that are kept, and those of
    /// the directory above the root.
    pub open spec fn known(&self, ino: u64) -> Option<Seq<NamedAttr>> {
        match self.kept(ino) {
            Some(entries) => Some(entries),
            None => if ino == 0 {
                Some(above_root())
            } else {
                None
            },
        }
    }

    /// The listing that the view keeps under `key`.
    pub closed spec fn listed(&self, key: Seq<char>) -> Option<Seq<FileRecord>> {
        self.view.cached(key)
    }

    /// The listing from which the entries of the directory with the inode
    /// `ino` can be made at once: the entries are not kept, but the view
    /// keeps the listing of the directory.
    pub open spec fn listing_at_hand(&self, ino: u64) -> Option<Seq<FileRecord>> {
        match self.listed(dir_key(self.inodes(), ino)) {
            Some(listing) => if ino != 0 && stands(self.inodes(), ino) && self.kept(ino) is None {
                Some(listing)
            } else {
                None
            },
            None => None,
        }
    }

    /// The files that are open, each under its handle.
    pub closed spec fn opened(&self) -> Map<u64, OpenedFile> {
        self.opened@
    }

    /// The entries of the directory above the root are always known: they
    /// are the root alone.
    pub proof fn lemma_above_root_known(&self)
        requires
            self.wf(),
        ensures
            self.known(0) == Some(above_root()),
    {
        let kept = self.kept_entries();
        lemma_key_index(kept, 0);
        if self.kept(0) is Some {
            assert(kept_sound(self.inodes(), kept[key_index(kept, 0)]));
        }
    }

    /// A file system over `view`, with no inode but the root, no open file
    /// and no entries kept.
    pub fn new(view: BackupPC) -> (fs: Self)
        requires
            view.wf(),
        ensures
            fs.wf(),
            fs.inodes() == Map::<u64, CacheElement>::empty(),
            fs.opened() == Map::<u64, OpenedFile>::empty(),
            fs.kept_entries() == Seq::<AttrEntry>::empty(),
    {
        BackupPCFS {
            view,
            inodes: HashMap::new(),
            cache: attr_cache_new(CACHE_SIZE),
            opened: HashMap::new(),
        }
    }

    /// The inode for an element: the first slot, of those tried by squares
    /// from the hash of its path on, that is free or stands for the element
    /// already; where all of those are taken, the first such slot of those
    /// that follow the hash one by one. There always is one.
    fn generate_new_ino(&self, elt: &CacheElement) -> (slot: u64)
        ensures
            found_slot(self.inodes(), elt@, slot),
            usable(self.inodes(), slot, elt@),
    {
        broadcast use vstd::std_specs::hash::group_hash_axioms;

        let key = join(&elt.path, '/');
        let start = hash_bytes(key.as_str().as_bytes());
        let ghost h = path_hash(elt@.path);
        let mut hash = start;
        let mut probe: u64 = 0;
        while probe < PROBE_LIMIT
            invariant
                probe <= PROBE_LIMIT,
                h == path_hash(elt@.path),
                hash == probe_slot(h, probe as nat),
                forall|j: nat| j < probe ==> !usable(self.inodes(), #[trigger] probe_slot(h, j), elt@),
            decreases PROBE_LIMIT - probe,
        {
            match self.inodes.get(&hash) {
                None => {
                    assert(first_usable(self.inodes(), h, elt@, probe as nat));
                    return hash;
                },
                Some(found) => {
                    if found.same(elt) {
                        assert(first_usable(self.inodes(), h, elt@, probe as nat));
                        return hash;
                    }
                },
            }
            probe += 1;
            assert(probe * probe <= 0x400_0000_0000) by (nonlinear_arith)
                requires
                    probe <= 0x20_0000,
            ;
            hash = hash.wrapping_add(probe * probe);
        }
        let taken = self.inodes.len();
        let mut step: u64 = 0;
        hash = start;
        loop
            invariant
                h == path_hash(elt@.path),
                start == h,
                taken == self.inodes().dom().len(),
                self.inodes().dom().finite(),
                step <= taken,
                hash == next_slot(h, step as nat),
                forall|k: nat|
                    k < PROBE_LIMIT ==> !usable(self.inodes(), #[trigger] probe_slot(h, k), elt@),
                forall|i: nat| i < step ==> !usable(self.inodes(), #[trigger] next_slot(h, i), elt@),
            decreases taken - step,
        {
            match self.inodes.get(&hash) {
                None => {
                    assert(first_free(self.inodes(), h, elt@, step as nat));
                    return hash;
                },
                Some(found) => {
                    if found.same(elt) {
                        assert(first_free(self.inodes(), h, elt@, step as nat));
                        return hash;
                    }
                },
            }
            proof {
                lemma_taken_steps(self.inodes(), h, elt@, (step + 1) as nat);
            }
            step += 1;
            hash = hash.wrapping_add(1);
        }
    }

    /// A handle that no open file has: the first such of the numbers
    /// drawn. Nothing where every number drawn is taken, which cannot be
    /// while no file is open.
    fn generate_file_handle(&self) -> (r: Option<u64>)
        ensures
            r matches Some(fh) ==> !self.opened().contains_key(fh),
            self.opened().dom() == Set::<u64>::empty() ==> r is Some,
    {
        broadcast use vstd::std_specs::hash::group_hash_axioms;

        let mut draws: u32 = 0;
        while draws < HANDLE_DRAWS
            invariant
                draws <= HANDLE_DRAWS,
                self.opened().dom() == Set::<u64>::empty() ==> draws == 0,
            decreases HANDLE_DRAWS - draws,
        {
            let handle = random_u64();
            if !self.opened.contains_key(&handle) {
                return Some(handle);
            }
            draws += 1;
        }
        None
    }

    /// What the inode `ino` stands for: the root for the inode of the root,
    /// else what was registered under it.
    fn element_of(&self, ino: u64) -> (r: Option<CacheElement>)
        ensures
            ino == ROOT_INO ==> (r matches Some(e) && e@ == (ElementView {
                path: Seq::<Seq<char>>::empty(),
                parent_ino: 0,
            })),
            ino != ROOT_INO ==> match r {
                Some(e) => self.inodes().contains_key(ino) && e@ == self.inodes()[ino]@,
                None => !self.inodes().contains_key(ino),
            },
    {
        broadcast use vstd::std_specs::hash::group_hash_axioms;

        if ino == ROOT_INO {
            let e = CacheElement { path: Vec::new(), parent_ino: 0 };
            assert(views(e.path@) =~= Seq::<Seq<char>>::empty());
            return Some(e);
        }
        match self.inodes.get(&ino) {
            Some(e) => Some(e.copy()),
            None => None,
        }
    }

    /// The entries of the directory `path` with the inode `ino`: the
    /// records of its listing that are shown, each under an inode that from
    /// now on stands for it. No inode changes what it stands for. The
    /// listing is the one that the view keeps afterwards; where the view
    /// keeps it already, the entries are owed.
    fn list_files(&mut self, ino: u64, path: &Vec<String>) -> (r: Result<
        Vec<BackupPCFileAttribute>,
        PoolError,
    >)
        requires
            old(self).wf(),
            stands(old(self).inodes(), ino),
            views(path@) == path_of(old(self).inodes(), ino),
        ensures
            final(self).wf(),
            final(self).opened() == old(self).opened(),
            final(self).kept_entries() == old(self).kept_entries(),
            extends(old(self).inodes(), final(self).inodes()),
            r matches Ok(v) ==> entries_ascend(named_attrs(v@)) && registered(
                final(self).inodes(),
                ino,
                named_attrs(v@),
            ),
            r matches Ok(v) ==> (final(self).listed(list_key(views(path@))) matches Some(listing)
                && shows(named_attrs(v@), listing)),
            old(self).listed(list_key(views(path@))) matches Some(listing) ==> (r matches Ok(v)
                && shows(named_attrs(v@), listing)),
    {
        broadcast use vstd::std_specs::hash::group_hash_axioms;

        let refs = borrowed(path);
        let ghost key = list_key(views(path@));
        let files = self.view.list(refs.as_slice())?;
        let ghost all = records(files@);
        let mut out: Vec<BackupPCFileAttribute> = Vec::new();
        let mut i: usize = 0;
        assert(all.take(0) == Seq::<FileRecord>::empty());
        while i < files.len()
            invariant
                i <= files.len(),
                all == records(files@),
                names_ascend(all),
                self.wf(),
                self.opened() == old(self).opened(),
                self.kept_entries() == old(self).kept_entries(),
                key == list_key(views(path@)),
                self.listed(key) == Some(all),
                old(self).listed(key) matches Some(listing) ==> listing == all,
                shows(named_attrs(out@), all.take(i as int)),
                extends(old(self).inodes(), self.inodes()),
                entries_ascend(named_attrs(out@)),
                forall|k: int, j: int|
                    0 <= k < out@.len() && i <= j < all.len() ==> name_le(
                        (#[trigger] out@[k])@.name,
                        (#[trigger] all[j]).name,
                    ),
                stands(old(self).inodes(), ino),
                views(path@) == path_of(old(self).inodes(), ino),
                registered(self.inodes(), ino, named_attrs(out@)),
            decreases files.len() - i,
        {
            let file = files[i].copy();
            assert(file@ == all[i as int]);
            proof {
                assert(all.take(i + 1).drop_last() == all.take(i as int));
                assert(all.take(i + 1).last() == all[i as int]);
            }
            if shown(&file) {
                let mut child_path: Vec<String> = Vec::new();
                let mut k: usize = 0;
                while k < path.len()
                    invariant
                        k <= path.len(),
                        child_path.len() == k,
                        forall|j: int| 0 <= j < k ==> child_path@[j]@ == path@[j]@,
                    decreases path.len() - k,
                {
                    child_path.push(path[k].clone());
                    k += 1;
                }
                child_path.push(file.name.clone());
                assert(views(child_path@) =~= views(path@).push(file@.name));
                let key = CacheElement { path: child_path, parent_ino: ino };
                let child_ino = self.generate_new_ino(&key);
                let ghost before = self.inodes();
                let ghost key_view = key@;
                assert(usable(before, child_ino, key_view));
                let ghost prev = named_attrs(out@);
                self.inodes.insert(child_ino, key);
                proof {
                    assert forall|n: u64| #[trigger] before.contains_key(n) implies self.inodes()[n]@
                        == before[n]@ by {
                        if n == child_ino {
                        }
                    }
                    assert(extends(before, self.inodes()));
                    lemma_kept_extends(before, self.inodes(), attr_cache_entries(self.cache));
                    lemma_registered_extends(before, self.inodes(), ino, prev);
                    lemma_registered_extends(
                        old(self).inodes(),
                        self.inodes(),
                        ino,
                        Seq::<NamedAttr>::empty(),
                    );
                }
                let entry = BackupPCFileAttribute::from_file_attribute(file, child_ino);
                out.push(entry);
                assert(named_attrs(out@) == prev.push(out@[out@.len() - 1]@));
                assert(shows(named_attrs(out@), all.take(i + 1))) by {
                    let now = shown_records(all.take(i + 1));
                    assert(now == shown_records(all.take(i as int)).push(all[i as int]));
                    assert forall|k: int| 0 <= k < out@.len() implies (#[trigger] named_attrs(
                        out@,
                    )[k]).name == now[k].name && named_attrs(out@)[k].attr == attr_of(
                        now[k],
                        named_attrs(out@)[k].attr.ino,
                    ) by {
                        if k < prev.len() {
                            assert(named_attrs(out@)[k] == prev[k]);
                        }
                    }
                }
                assert(registered(self.inodes(), ino, named_attrs(out@))) by {
                    assert forall|k: int| 0 <= k < out@.len() implies self.inodes().contains_key(
                        (#[trigger] named_attrs(out@)[k]).attr.ino,
                    ) && self.inodes()[named_attrs(out@)[k].attr.ino]@ == child_of(
                        path_of(self.inodes(), ino),
                        named_attrs(out@)[k].name,
                        ino,
                    ) by {
                        if k < prev.len() {
                            assert(named_attrs(out@)[k] == prev[k]);
                        }
                    }
                }
                assert forall|a: int, b: int| 0 <= a < b < out@.len() implies name_le(
                    #[trigger] named_attrs(out@)[a].name,
                    #[trigger] named_attrs(out@)[b].name,
                ) by {
                    if b == out@.len() - 1 {
                        assert(name_le(out@[a]@.name, all[i as int].name));
                    } else {
                        assert(name_le(prev[a].name, prev[b].name));
                    }
                }
                assert forall|a: int, j: int|
                    0 <= a < out@.len() && i + 1 <= j < all.len() implies name_le(
                    (#[trigger] out@[a])@.name,
                    (#[trigger] all[j]).name,
                ) by {
                    if a == out@.len() - 1 {
                        assert(name_le(all[i as int].name, all[j].name));
                    }
                }
            }
            i += 1;
        }
        assert(all.take(i as int) == all);
        Ok(out)
    }
}

/// The index of the first entry called `name`; the number of entries where
/// there is none.
pub open spec fn entry_named(entries: Seq<NamedAttr>, name: Seq<char>) -> int
    decreases entries.len(),
{
    if entries.len() == 0 {
        0
    } else if entries[0].name == name {
        0
    } else {
        1 + entry_named(entries.skip(1), name)
    }
}

/// The index of the first entry with the inode `ino`; the number of entries
/// where there is none.
pub open spec fn entry_with_ino(entries: Seq<NamedAttr>, ino: u64) -> int
    decreases entries.len(),
{
    if entries.len() == 0 {
        0
    } else if entries[0].attr.ino == ino {
        0
    } else {
        1 + entry_with_ino(entries.skip(1), ino)
    }
}

/// What the kernel is told of the first entry called `name`, if there is
/// one.
pub open spec fn attr_named(entries: Seq<NamedAttr>, name: Seq<char>) -> Option<FileAttr> {
    if 0 <= entry_named(entries, name) < entries.len() {
        Some(entries[entry_named(entries, name)].attr)
    } else {
        None
    }
}

/// What the kernel is told of the first entry with the inode `ino`, if
/// there is one.
pub open spec fn attr_with_ino(entries: Seq<NamedAttr>, ino: u64) -> Option<FileAttr> {
    if 0 <= entry_with_ino(entries, ino) < entries.len() {
        Some(entries[entry_with_ino(entries, ino)].attr)
    } else {
        None
    }
}

/// What is told of a file together with the time it may be kept.
pub open spec fn with_ttl(attr: Option<FileAttr>, ttl: u64) -> Option<(u64, FileAttr)> {
    match attr {
        Some(a) => Some((ttl, a)),
        None => None,
    }
}

/// The inode of the directory that holds what `ino` stands for: zero, the
/// inode of the directory above the root, for the root.
pub open spec fn holder_of(m: Map<u64, CacheElement>, ino: u64) -> u64 {
    if ino == ROOT_INO {
        0
    } else {
        m[ino].parent_ino
    }
}

/// What a listing of directory entries from `offset` on gives: the entries
/// to hand to the kernel, or `Overflow` for a negative offset and for more
/// entries than have offsets.
pub open spec fn dir_listing(
    elements: Seq<NamedAttr>,
    ino: u64,
    parent: Option<u64>,
    offset: i64,
) -> Result<Seq<DirEntryView>, PoolError> {
    if offset < 0 || elements.len() >= MAX_ENTRIES {
        Err(PoolError::Overflow)
    } else {
        Ok(listing_from(elements, ino, parent, offset))
    }
}

/// What the kernel is told of the first entry called `name`.
pub fn find_by_name(entries: &Vec<BackupPCFileAttribute>, name: &str) -> (r: Option<FileAttr>)
    ensures
        match r {
            Some(a) => 0 <= entry_named(named_attrs(entries@), name@) < entries.len() && a
                == named_attrs(entries@)[entry_named(named_attrs(entries@), name@)].attr
                && named_attrs(entries@)[entry_named(named_attrs(entries@), name@)].name == name@,
            None => entry_named(named_attrs(entries@), name@) == entries.len(),
        },
        r == attr_named(named_attrs(entries@), name@),
{
    let ghost all = named_attrs(entries@);
    let mut i: usize = 0;
    assert(all.skip(0) == all);
    while i < entries.len()
        invariant
            i <= entries.len(),
            all == named_attrs(entries@),
            entry_named(all, name@) == i + entry_named(all.skip(i as int), name@),
        decreases entries.len() - i,
    {
        assert(all.skip(i as int)[0] == entries@[i as int]@);
        assert(all.skip(i as int).skip(1) == all.skip(i + 1));
        if same_text(entries[i].name.as_str(), name) {
            return Some(entries[i].attr);
        }
        i += 1;
    }
    None
}

/// What the kernel is told of the first entry with the inode `ino`.
pub fn find_by_ino(entries: &Vec<BackupPCFileAttribute>, ino: u64) -> (r: Option<FileAttr>)
    ensures
        match r {
            Some(a) => 0 <= entry_with_ino(named_attrs(entries@), ino) < entries.len() && a
                == named_attrs(entries@)[entry_with_ino(named_attrs(entries@), ino)].attr && a.ino
                == ino,
            None => entry_with_ino(named_attrs(entries@), ino) == entries.len(),
        },
        r == attr_with_ino(named_attrs(entries@), ino),
{
    let ghost all = named_attrs(entries@);
    let mut i: usize = 0;
    assert(all.skip(0) == all);
    while i < entries.len()
        invariant
            i <= entries.len(),
            all == named_attrs(entries@),
            entry_with_ino(all, ino) == i + entry_with_ino(all.skip(i as int), ino),
        decreases entries.len() - i,
    {
        assert(all.skip(i as int)[0] == entries@[i as int]@);
        assert(all.skip(i as int).skip(1) == all.skip(i + 1));
        if entries[i].attr.ino == ino {
            return Some(entries[i].attr);
        }
        i += 1;
    }
    None
}

/// A copy of the entries of a directory.
pub fn copy_entries(entries: &Vec<BackupPCFileAttribute>) -> (copy: Vec<BackupPCFileAttribute>)
    ensures
        named_attrs(copy@) == named_attrs(entries@),
{
    let mut copy: Vec<BackupPCFileAttribute> = Vec::new();
    let mut i: usize = 0;
    while i < entries.len()
        invariant
            i <= entries.len(),
            copy.len() == i,
            forall|k: int| 0 <= k < i ==> copy@[k]@ == entries@[k]@,
        decreases entries.len() - i,
    {
        copy.push(entries[i].copy());
        i += 1;
    }
    assert(named_attrs(copy@) =~= named_attrs(entries@));
    copy
}

impl BackupPCFS {
    /// The entries of the directory with the inode `ino`, made anew. The
    /// inode zero holds the root alone, under the name `..`. An inode that
    /// stands for nothing fails with `NotFound`. Of any other inode the
    /// entries are those of the listing that the view keeps afterwards;
    /// where the view keeps it already, they are owed.
    fn list_attributes(&mut self, ino: u64) -> (r: Result<Vec<BackupPCFileAttribute>, PoolError>)
        requires
            old(self).wf(),
        ensures
            final(self).wf(),
            final(self).opened() == old(self).opened(),
            final(self).kept_entries() == old(self).kept_entries(),
            extends(old(self).inodes(), final(self).inodes()),
            r matches Ok(v) ==> entries_ascend(named_attrs(v@)),
            r matches Ok(v) ==> (ino != 0 ==> stands(final(self).inodes(), ino) && registered(
                final(self).inodes(),
                ino,
                named_attrs(v@),
            )),
            ino == 0 ==> (r matches Ok(v) && named_attrs(v@) == above_root()),
            ino != 0 && !stands(old(self).inodes(), ino) ==> r == Err::<
                Vec<BackupPCFileAttribute>,
                PoolError,
            >(PoolError::NotFound),
            ino != 0 ==> (r matches Ok(v) ==> (final(self).listed(
                dir_key(old(self).inodes(), ino),
            ) matches Some(listing) && shows(named_attrs(v@), listing))),
            ino != 0 && stands(old(self).inodes(), ino) ==> (old(self).listed(
                dir_key(old(self).inodes(), ino),
            ) matches Some(listing) ==> (r matches Ok(v) && shows(named_attrs(v@), listing))),
    {
        if ino == 0 {
            let only = vec![BackupPCFileAttribute { name: "..".to_owned(), attr: root_attr() }];
            proof {
                reveal_strlit("..");
                assert(".."@ =~= seq!['.', '.']);
                assert(named_attrs(only@) =~= above_root());
                assert(entries_ascend(named_attrs(only@)));
            }
            return Ok(only);
        }
        let element = match self.element_of(ino) {
            Some(e) => e,
            None => {
                return Err(PoolError::NotFound);
            },
        };
        self.list_files(ino, &element.path)
    }

    /// The entries of the directory with the inode `ino`, in ascending
    /// order of their names: as they are kept, or made anew and kept. What
    /// is given is what is kept afterwards; a failure keeps nothing.
    /// Entries that are known are owed, and so are entries that can be made
    /// from a listing at hand.
    fn list_attributes_with_cache(&mut self, ino: u64) -> (r: Result<
        Vec<BackupPCFileAttribute>,
        PoolError,
    >)
        requires
            old(self).wf(),
        ensures
            final(self).wf(),
            final(self).opened() == old(self).opened(),
            extends(old(self).inodes(), final(self).inodes()),
            r matches Ok(v) ==> entries_ascend(named_attrs(v@)),
            r matches Ok(v) ==> (ino != 0 ==> stands(final(self).inodes(), ino) && registered(
                final(self).inodes(),
                ino,
                named_attrs(v@),
            )),
            old(self).known(ino) matches Some(entries) ==> (r matches Ok(v) && named_attrs(v@)
                == entries),
            r matches Ok(v) ==> final(self).kept(ino) == Some(named_attrs(v@)),
            r is Err ==> final(self).kept_entries() == old(self).kept_entries()
                && old(self).kept(ino) is None,
            ino != 0 && !stands(old(self).inodes(), ino) ==> r == Err::<
                Vec<BackupPCFileAttribute>,
                PoolError,
            >(PoolError::NotFound),
            old(self).listing_at_hand(ino) matches Some(listing) ==> (r matches Ok(v) && shows(
                named_attrs(v@),
                listing,
            )),
            old(self).kept(ino) is None && ino != 0 ==> (r matches Ok(v) ==> (final(self).listed(
                dir_key(old(self).inodes(), ino),
            ) matches Some(listing) && shows(named_attrs(v@), listing))),
    {
        let ghost kept = attr_cache_entries(self.cache);
        proof {
            if lookup(kept, ino) is Some {
                let i = key_index(kept, ino);
                lemma_key_index(kept, ino);
                lemma_touched_keeps(kept, i, |e: AttrEntry| kept_sound(self.inodes(), e));
                assert(kept_sound(self.inodes(), kept[i]));
                assert(touched(kept, i)[0] == kept[i]);
                assert(key_index(touched(kept, i), ino) == 0);
            }
        }
        match attr_cache_get(&mut self.cache, ino) {
            Some(entries) => {
                return Ok(entries);
            },
            None => {},
        }
        let entries = self.list_attributes(ino)?;
        let copy = copy_entries(&entries);
        proof {
            lemma_put_keeps(
                attr_cache_entries(self.cache),
                attr_cache_limit(self.cache),
                ino,
                named_attrs(copy@),
                |e: AttrEntry| kept_sound(self.inodes(), e),
            );
            lemma_put_then_lookup(
                attr_cache_entries(self.cache),
                attr_cache_limit(self.cache),
                ino,
                named_attrs(copy@),
            );
        }
        attr_cache_put(&mut self.cache, ino, copy);
        Ok(entries)
    }

    /// What the kernel is told of the entry `name` of the directory with the
    /// inode `ino`, and for how many seconds it may keep that. Nothing
    /// where the inode stands for nothing, the directory cannot be listed,
    /// or it has no such entry. The answer is that of the entries of the
    /// directory that are kept afterwards: those that were known, or those
    /// made from its listing.
    pub fn get_file_attr(&mut self, ino: u64, name: &str) -> (r: Option<(u64, FileAttr)>)
        requires
            old(self).wf(),
        ensures
            final(self).wf(),
            final(self).opened() == old(self).opened(),
            extends(old(self).inodes(), final(self).inodes()),
            !stands(old(self).inodes(), ino) ==> r is None,
            stands(old(self).inodes(), ino) ==> r == with_ttl(
                match final(self).kept(ino) {
                    Some(entries) => attr_named(entries, name@),
                    None => None,
                },
                ttl_of(path_of(old(self).inodes(), ino).len()),
            ),
            stands(old(self).inodes(), ino) ==> (old(self).known(ino) matches Some(entries)
                ==> final(self).kept(ino) == Some(entries)),
            old(self).listing_at_hand(ino) matches Some(listing) ==> (final(self).kept(ino)
                matches Some(entries) && shows(entries, listing)),
            r matches Some((ttl, attr)) ==> ttl == ttl_of(path_of(old(self).inodes(), ino).len())
                && (ino != 0 ==> final(self).inodes().contains_key(attr.ino)
                && final(self).inodes()[attr.ino]@ == child_of(
                path_of(final(self).inodes(), ino),
                name@,
                ino,
            )),
    {
        let element = self.element_of(ino)?;
        assert(element@.path.len() == element.path@.len());
        let ttl = ttl_for(element.path.len());
        match self.list_attributes_with_cache(ino) {
            Ok(entries) => match find_by_name(&entries, name) {
                Some(attr) => Some((ttl, attr)),
                None => None,
            },
            Err(_) => None,
        }
    }

    /// What the kernel is told of the inode `ino`, and for how many seconds
    /// it may keep that: the entry of that inode in the directory that
    /// holds it. Nothing where the inode stands for nothing, the directory
    /// cannot be listed, or it has no such entry. The answer is that of the
    /// entries of the holding directory that are kept afterwards: those
    /// that were known, or those made from its listing. Of the root the
    /// kernel is always told the same.
    pub fn get_attr(&mut self, ino: u64) -> (r: Option<(u64, FileAttr)>)
        requires
            old(self).wf(),
        ensures
            final(self).wf(),
            final(self).opened() == old(self).opened(),
            extends(old(self).inodes(), final(self).inodes()),
            !stands(old(self).inodes(), ino) ==> r is None,
            stands(old(self).inodes(), ino) ==> r == with_ttl(
                match final(self).kept(holder_of(old(self).inodes(), ino)) {
                    Some(entries) => attr_with_ino(entries, ino),
                    None => None,
                },
                ttl_of(path_of(old(self).inodes(), ino).len()),
            ),
            stands(old(self).inodes(), ino) ==> (old(self).known(
                holder_of(old(self).inodes(), ino),
            ) matches Some(entries) ==> final(self).kept(holder_of(old(self).inodes(), ino))
                == Some(entries)),
            stands(old(self).inodes(), ino) ==> (old(self).listing_at_hand(
                holder_of(old(self).inodes(), ino),
            ) matches Some(listing) ==> (final(self).kept(
                holder_of(old(self).inodes(), ino),
            ) matches Some(entries) && shows(entries, listing))),
            ino == ROOT_INO ==> r == Some((TTL_HOST, root_attr_spec())),
            r matches Some((ttl, attr)) ==> attr.ino == ino && ttl == ttl_of(
                path_of(old(self).inodes(), ino).len(),
            ),
    {
        let element = self.element_of(ino)?;
        assert(element@.path.len() == element.path@.len());
        let ttl = ttl_for(element.path.len());
        proof {
            if ino == ROOT_INO {
                self.lemma_above_root_known();
                assert(above_root()[0].attr.ino == ino);
                assert(entry_with_ino(above_root(), ino) == 0);
            }
        }
        match self.list_attributes_with_cache(element.parent_ino) {
            Ok(entries) => match find_by_ino(&entries, ino) {
                Some(attr) => Some((ttl, attr)),
                None => None,
            },
            Err(_) => None,
        }
    }

    /// What a listing of the directory with the inode `ino` hands to the
    /// kernel from `offset` on: the listing of the entries of the directory
    /// that are kept afterwards, those that were known or those made from
    /// its listing. It fails where there are no such entries: an inode that
    /// stands for nothing fails with `NotFound`.
    pub fn read_dir(&mut self, ino: u64, offset: i64) -> (r: Result<Vec<DirEntry>, PoolError>)
        requires
            old(self).wf(),
        ensures
            final(self).wf(),
            final(self).opened() == old(self).opened(),
            extends(old(self).inodes(), final(self).inodes()),
            match final(self).kept(ino) {
                Some(entries) => match dir_listing(
                    entries,
                    ino,
                    parent_of(final(self).inodes(), ino),
                    offset,
                ) {
                    Ok(listing) => r matches Ok(v) && dir_entry_views(v@) == listing,
                    Err(e) => r == Err::<Vec<DirEntry>, PoolError>(e),
                },
                None => r is Err,
            },
            old(self).known(ino) matches Some(entries) ==> final(self).kept(ino) == Some(entries),
            old(self).listing_at_hand(ino) matches Some(listing) ==> (final(self).kept(ino)
                matches Some(entries) && shows(entries, listing)),
            ino != 0 && !stands(old(self).inodes(), ino) ==> r == Err::<
                Vec<DirEntry>,
                PoolError,
            >(PoolError::NotFound),
            r matches Ok(v) ==> offset >= 0 && forall|k: int|
                0 <= k < v@.len() ==> (#[trigger] v@[k]).offset > offset,
            r matches Ok(v) ==> exists|elements: Seq<NamedAttr>|
                entries_ascend(elements) && (ino != 0 ==> registered(
                    final(self).inodes(),
                    ino,
                    elements,
                )) && #[trigger] listing_from(
                    elements,
                    ino,
                    parent_of(final(self).inodes(), ino),
                    offset,
                ) == dir_entry_views(v@),
    {
        broadcast use vstd::std_specs::hash::group_hash_axioms;

        let elements = self.list_attributes_with_cache(ino)?;
        let parent = match self.inodes.get(&ino) {
            Some(e) => Some(e.parent_ino),
            None => None,
        };
        assert(parent == parent_of(self.inodes(), ino));
        dir_entries(&elements, ino, parent, offset)
    }

    /// Where the content of the file with the inode `ino` is found: the
    /// first record of its name in the listing of its directory says so,
    /// the listing that the view keeps afterwards. An inode that stands for
    /// nothing, the root, and a name that the listing does not hold fail
    /// with `NotFound`; where the view keeps the listing already, nothing
    /// else fails. A digest that is given is longer than two bytes and is
    /// not that of empty content.
    pub fn source_of(&mut self, ino: u64) -> (r: Result<FileSource, PoolError>)
        requires
            old(self).wf(),
        ensures
            final(self).wf(),
            final(self).opened() == old(self).opened(),
            final(self).inodes() == old(self).inodes(),
            final(self).kept_entries() == old(self).kept_entries(),
            !stands(old(self).inodes(), ino) ==> r == Err::<FileSource, PoolError>(
                PoolError::NotFound,
            ),
            stands(old(self).inodes(), ino) && path_of(old(self).inodes(), ino).len() == 0 ==> r
                == Err::<FileSource, PoolError>(PoolError::NotFound),
            ino == ROOT_INO ==> r == Err::<FileSource, PoolError>(PoolError::NotFound),
            r matches Ok(FileSource::Pool(d)) ==> d@.len() > 2 && d@ != empty_md5(),
            stands(old(self).inodes(), ino) && path_of(old(self).inodes(), ino).len() > 0 ==> ({
                let path = path_of(old(self).inodes(), ino);
                old(self).listed(parent_key(path)) matches Some(listing) ==> match r {
                    Ok(s) => position(listing, path.last()) < listing.len() && s@ == content_of(
                        listing[position(listing, path.last())],
                    ),
                    Err(e) => e == PoolError::NotFound && position(listing, path.last())
                        == listing.len(),
                }
            }),
            r matches Ok(s) ==> ({
                let path = path_of(old(self).inodes(), ino);
                final(self).listed(parent_key(path)) matches Some(listing) && position(
                    listing,
                    path.last(),
                ) < listing.len() && s@ == content_of(listing[position(listing, path.last())])
            }),
    {
        let element = match self.element_of(ino) {
            Some(e) => e,
            None => {
                return Err(PoolError::NotFound);
            },
        };
        let refs = borrowed(&element.path);
        assert(strs(refs@).len() == refs@.len());
        assert(refs@.len() > 0 ==> refs@.last()@ == strs(refs@).last());
        self.view.read_file(refs.as_slice())
    }

    /// Opens a file on the stream of its content, which stands at its
    /// start, and gives the handle of the file: one that no other open file
    /// has. Where no free handle is drawn it fails with `Io` and opens
    /// nothing.
    pub fn open(&mut self, reader: PoolStream) -> (r: Result<u64, PoolError>)
        requires
            old(self).wf(),
            reader.wf(),
            reader.position() == 0,
        ensures
            final(self).wf(),
            final(self).inodes() == old(self).inodes(),
            match r {
                Ok(fh) => !old(self).opened().contains_key(fh)
                    && final(self).opened() == old(self).opened().insert(
                    fh,
                    OpenedFile { offset: 0, reader },
                ),
                Err(e) => e == PoolError::Io && final(self).opened() == old(self).opened(),
            },
            old(self).opened().dom() == Set::<u64>::empty() ==> r is Ok,
    {
        broadcast use vstd::std_specs::hash::group_hash_axioms;

        match self.generate_file_handle() {
            Some(fh) => {
                let file = OpenedFile::new(reader);
                self.opened.insert(fh, file);
                Ok(fh)
            },
            None => Err(PoolError::Io),
        }
    }

    /// Closes the file with the handle `fh`.
    pub fn release(&mut self, fh: u64)
        requires
            old(self).wf(),
        ensures
            final(self).wf(),
            final(self).inodes() == old(self).inodes(),
            final(self).opened() == old(self).opened().remove(fh),
    {
        broadcast use vstd::std_specs::hash::group_hash_axioms;

        self.opened.remove(&fh);
    }

    /// Reads up to `size` bytes at `offset` of the file with the handle
    /// `fh`; afterwards the file stands behind the bytes it has given. A
    /// handle that no open file has fails with `NotFound`.
    pub fn read_ino(&mut self, fh: u64, offset: i64, size: u32) -> (r: Result<Vec<u8>, PoolError>)
        requires
            old(self).wf(),
        ensures
            final(self).wf(),
            final(self).inodes() == old(self).inodes(),
            final(self).opened().dom() == old(self).opened().dom(),
            forall|other: u64|
                other != fh && old(self).opened().contains_key(other)
                    ==> #[trigger] final(self).opened()[other] == old(self).opened()[other],
            !old(self).opened().contains_key(fh) ==> r == Err::<Vec<u8>, PoolError>(
                PoolError::NotFound,
            ),
            old(self).opened().contains_key(fh) ==> final(self).opened()[fh].reader.content()
                == old(self).opened()[fh].reader.content()
                && final(self).opened()[fh].reader.broken() == old(self).opened()[fh].reader.broken()
                && match expected_read(
                old(self).opened()[fh].reader.content(),
                old(self).opened()[fh].reader.broken(),
                offset,
                size,
            ) {
                Ok(bytes) => r matches Ok(v) && v@ == bytes,
                Err(e) => r == Err::<Vec<u8>, PoolError>(e),
            },
            r matches Ok(v) ==> final(self).opened()[fh].offset == read_start(offset) + v@.len(),
    {
        broadcast use vstd::std_specs::hash::group_hash_axioms;

        let ghost before = self.opened();
        match self.opened.remove(&fh) {
            None => {
                assert(self.opened() == before);
                Err(PoolError::NotFound)
            },
            Some(file) => {
                let mut file = file;
                assert(file == before[fh]);
                let r = file.read_at(offset, size);
                self.opened.insert(fh, file);
                assert(self.opened().dom() =~= before.dom());
                r
            },
        }
    }
}

} // verus!
