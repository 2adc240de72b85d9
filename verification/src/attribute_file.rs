//! Where the attribute file of a directory lies and what its name and its
//! content say.
use vstd::prelude::*;
use crate::compress::{decompress, unpacked};
use crate::decode_attribut::{
    has_magic, records, records_at, AttributeFile, FileAttributes, FileRecord,
};
use crate::error::PoolError;
use crate::reader::ByteReader;
use crate::text::{
    chars_of, decimal, decimal_string, join, join_with, push_text, same_text, split, split_on,
    string_of, views,
};
use crate::util::{
    hex_bytes, is_hex_string, mangle, mangle_filename, mangled, mangled_path,
    try_hex_string_to_vec,
};

verus! {

/// What the view reads of the attribute files of a pool.
pub trait SearchTrait: Send + Sync {
    /// The records of the attribute file at `file`.
    fn read_attrib(&self, file: &str, is_compressed: bool) -> Result<
        Vec<FileAttributes>,
        PoolError,
    >;

    /// The records of one directory of one backup: of the directory
    /// `filename` of `share`, of the root of `share` without a `filename`,
    /// or the shares of the backup without a `share`.
    fn list_file_from_dir(
        &self,
        hostname: &str,
        backup_number: u32,
        share: Option<&str>,
        filename: Option<&str>,
    ) -> Result<Vec<FileAttributes>, PoolError>;

    /// The records of the attribute file in the directory `attrib_path` of a
    /// backup whose name starts with `attrib_file`.
    fn list_attributes(
        &self,
        hostname: &str,
        backup_number: u32,
        attrib_path: &str,
        attrib_file: &str,
    ) -> Result<Vec<FileAttributes>, PoolError>;

    /// The records of the file `filename` of `share`.
    fn get_file(&self, hostname: &str, backup_number: u32, share: &str, filename: &str) -> Result<
        Vec<FileAttributes>,
        PoolError,
    >;
}

/// Where the attribute files of a pool are found.
pub struct Search {
    topdir: String,
}

/// What the name of an attribute file says of its content.
#[derive(Debug, PartialEq, Eq, Clone)]
pub enum AttribPointer {
    /// The directory is empty: there is no content.
    Empty,
    /// The content stands in the pool under this digest.
    Digest(Vec<u8>),
    /// The name does not end in a digest.
    Invalid,
}

/// What the name of an attribute file says of its content, as a value.
pub enum AttribPointerView {
    Empty,
    Digest(Seq<u8>),
    Invalid,
}

impl View for AttribPointer {
    type V = AttribPointerView;

    open spec fn view(&self) -> AttribPointerView {
        match self {
            AttribPointer::Empty => AttribPointerView::Empty,
            AttribPointer::Digest(d) => AttribPointerView::Digest(d@),
            AttribPointer::Invalid => AttribPointerView::Invalid,
        }
    }
}

/// The directory of a backup that holds an attribute file.
pub open spec fn attrib_dir_path(
    topdir: Seq<char>,
    hostname: Seq<char>,
    backup_number: u32,
    attrib_path: Seq<char>,
) -> Seq<char> {
    topdir + "/pc/"@ + hostname + seq!['/'] + decimal(backup_number as nat) + seq!['/']
        + attrib_path
}

/// Whether `name` starts with `prefix`.
pub open spec fn has_prefix(name: Seq<char>, prefix: Seq<char>) -> bool {
    prefix.len() <= name.len() && name.take(prefix.len() as int) == prefix
}

/// The index of the first name that starts with `prefix`; the number of
/// names where there is none.
pub open spec fn first_with_prefix(names: Seq<Seq<char>>, prefix: Seq<char>) -> int
    decreases names.len(),
{
    if names.len() == 0 {
        0
    } else if has_prefix(names[0], prefix) {
        0
    } else {
        1 + first_with_prefix(names.skip(1), prefix)
    }
}

/// What stands behind the last underscore of a name; the whole name where it
/// has none.
pub open spec fn name_suffix(name: Seq<char>) -> Seq<char> {
    split_on(name, '_').last()
}

/// What the name of an attribute file says of its content: a name that ends
/// in `_0` says that there is none, a name that ends in hexadecimal text
/// gives the digest of the content.
pub open spec fn pointer_of_name(name: Seq<char>) -> AttribPointerView {
    let suffix = name_suffix(name);
    if suffix == seq!['0'] {
        AttribPointerView::Empty
    } else if is_hex_string(suffix) {
        AttribPointerView::Digest(hex_bytes(suffix))
    } else {
        AttribPointerView::Invalid
    }
}

/// What the names of the files of a directory say of the content of its
/// attribute file, the first file whose name starts with `prefix`: what the
/// name of that file says, or that there is no content where there is no
/// such file.
pub open spec fn pointer_in(names: Seq<Seq<char>>, prefix: Seq<char>) -> AttribPointerView {
    if 0 <= first_with_prefix(names, prefix) < names.len() {
        pointer_of_name(names[first_with_prefix(names, prefix)])
    } else {
        AttribPointerView::Empty
    }
}

/// The directory of the attribute file of a directory of a share, below the
/// directory of the backup: the mangled share and the mangled path, as far
/// as they are given, with a slash between them.
pub open spec fn attrib_path_of(share: Option<Seq<char>>, filename: Option<Seq<char>>) -> Seq<
    char,
> {
    match (share, filename) {
        (Some(s), Some(f)) => mangled(s) + seq!['/'] + mangled_path(f),
        (Some(s), None) => mangled(s),
        (None, Some(f)) => mangled_path(f),
        (None, None) => Seq::<char>::empty(),
    }
}

/// The records of an attribute file that is not compressed.
pub open spec fn file_records(s: Seq<u8>) -> Result<Seq<FileRecord>, PoolError> {
    if has_magic(s) {
        Ok(records_at(s.skip(4)).0)
    } else {
        Err(PoolError::InvalidMagic)
    }
}

/// The records of an attribute file as the pool holds it.
pub open spec fn attrib_records(data: Seq<u8>, is_compressed: bool) -> Result<
    Seq<FileRecord>,
    PoolError,
> {
    if !is_compressed {
        file_records(data)
    } else if unpacked(data).1 {
        Err(PoolError::CorruptData)
    } else {
        file_records(unpacked(data).0)
    }
}

/// The records of `s` that are called `name`, in their order.
pub open spec fn called(s: Seq<FileRecord>, name: Seq<char>) -> Seq<FileRecord>
    decreases s.len(),
{
    if s.len() == 0 {
        Seq::<FileRecord>::empty()
    } else if s.last().name == name {
        called(s.drop_last(), name).push(s.last())
    } else {
        called(s.drop_last(), name)
    }
}

/// The path of a file without its last component.
pub open spec fn parent_path(filename: Seq<char>) -> Seq<char> {
    join_with(split_on(filename, '/').drop_last(), '/')
}

/// The last component of the path of a file.
pub open spec fn base_name(filename: Seq<char>) -> Seq<char> {
    split_on(filename, '/').last()
}

impl Search {
    /// The attribute files of the pool under `topdir`.
    pub fn new(topdir: &str) -> (s: Self)
        ensures
            s.topdir()@ == topdir@,
    {
        Search { topdir: topdir.to_owned() }
    }

    /// The directory of the pool.
    pub closed spec fn topdir(&self) -> String {
        self.topdir
    }

    /// The directory of the pool.
    pub fn top(&self) -> (t: &str)
        ensures
            t@ == self.topdir()@,
    {
        self.topdir.as_str()
    }

    /// The directory of a backup that holds an attribute file.
    pub fn attrib_dir(&self, hostname: &str, backup_number: u32, attrib_path: &str) -> (path:
        String)
        ensures
            path@ == attrib_dir_path(self.topdir()@, hostname@, backup_number, attrib_path@),
    {
        let mut out: Vec<char> = Vec::new();
        push_text(&mut out, self.topdir.as_str());
        push_text(&mut out, "/pc/");
        push_text(&mut out, hostname);
        out.push('/');
        push_text(&mut out, decimal_string(backup_number as u64).as_str());
        out.push('/');
        push_text(&mut out, attrib_path);
        string_of(&out)
    }

    /// Finds among the names of the files of a directory the attribute file:
    /// the first whose name starts with `attrib_file`.
    pub fn search_attrib_file(names: &Vec<String>, attrib_file: &str) -> (r: Option<usize>)
        ensures
            match r {
                Some(i) => i == first_with_prefix(views(names@), attrib_file@) && i < names.len(),
                None => first_with_prefix(views(names@), attrib_file@) == names.len(),
            },
    {
        let prefix = chars_of(attrib_file);
        let ghost all = views(names@);
        let mut i: usize = 0;
        assert(all.skip(0) == all);
        while i < names.len()
            invariant
                i <= names.len(),
                all == views(names@),
                prefix@ == attrib_file@,
                first_with_prefix(all, prefix@) == i + first_with_prefix(
                    all.skip(i as int),
                    prefix@,
                ),
            decreases names.len() - i,
        {
            assert(all.skip(i as int)[0] == names@[i as int]@);
            assert(all.skip(i as int).skip(1) == all.skip(i + 1));
            if starts_with(names[i].as_str(), &prefix) {
                return Some(i);
            }
            i += 1;
        }
        None
    }

    /// Reads the name of an attribute file.
    pub fn attrib_pointer(file_name: &str) -> (p: AttribPointer)
        ensures
            p@ == pointer_of_name(file_name@),
    {
        let parts = split(file_name, '_');
        proof {
            crate::text::lemma_split_nonempty(file_name@, '_');
        }
        let suffix = &parts[parts.len() - 1];
        assert(suffix@ == name_suffix(file_name@));
        if same_text(suffix.as_str(), "0") {
            proof {
                reveal_strlit("0");
                assert("0"@ == seq!['0']);
            }
            return AttribPointer::Empty;
        }
        proof {
            reveal_strlit("0");
            assert("0"@ == seq!['0']);
        }
        match try_hex_string_to_vec(suffix.as_str()) {
            Some(digest) => AttribPointer::Digest(digest),
            None => AttribPointer::Invalid,
        }
    }

    /// What the files of a directory say of the content of its attribute
    /// file: what the name of the attribute file says, and that there is no
    /// content where the directory holds no attribute file.
    pub fn find_pointer(names: &Vec<String>, attrib_file: &str) -> (p: AttribPointer)
        ensures
            p@ == pointer_in(views(names@), attrib_file@),
    {
        match Self::search_attrib_file(names, attrib_file) {
            Some(i) => Self::attrib_pointer(names[i].as_str()),
            None => AttribPointer::Empty,
        }
    }

    /// The directory of the attribute file of a directory of a share, below
    /// the directory of the backup.
    pub fn attrib_path(share: Option<&str>, filename: Option<&str>) -> (path: String)
        ensures
            path@ == attrib_path_of(
                match share {
                    Some(s) => Some(s@),
                    None => None,
                },
                match filename {
                    Some(f) => Some(f@),
                    None => None,
                },
            ),
    {
        let mut out: Vec<char> = Vec::new();
        match share {
            Some(s) => {
                push_text(&mut out, mangle_filename(s).as_str());
                match filename {
                    Some(f) => {
                        out.push('/');
                        push_text(&mut out, mangle(f).as_str());
                    },
                    None => {},
                }
            },
            None => {
                match filename {
                    Some(f) => {
                        push_text(&mut out, mangle(f).as_str());
                    },
                    None => {},
                }
            },
        }
        string_of(&out)
    }

    /// Decodes the content of an attribute file as the pool holds it. A
    /// compressed file with a frame that cannot be read fails with
    /// `CorruptData`, content without the magic number with `InvalidMagic`.
    pub fn decode_attrib(data: Vec<u8>, is_compressed: bool) -> (r: Result<
        Vec<FileAttributes>,
        PoolError,
    >)
        ensures
            match attrib_records(data@, is_compressed) {
                Ok(listing) => r matches Ok(v) && records(v@) == listing,
                Err(e) => r == Err::<Vec<FileAttributes>, PoolError>(e),
            },
    {
        let plain = if is_compressed {
            decompress(data)?
        } else {
            data
        };
        let mut reader = ByteReader::new(plain.as_slice());
        let file = AttributeFile::read_from(&mut reader)?;
        Ok(file.attributes)
    }

    /// Splits the path of a file into the path of its directory and its
    /// name.
    pub fn split_file_path(filename: &str) -> (r: (String, String))
        ensures
            r.0@ == parent_path(filename@),
            r.1@ == base_name(filename@),
    {
        let mut parts = split(filename, '/');
        proof {
            crate::text::lemma_split_nonempty(filename@, '/');
        }
        let ghost all = views(parts@);
        let name = parts.pop().unwrap();
        assert(views(parts@) == all.drop_last());
        (join(&parts, '/'), name)
    }

    /// The records of a listing that are called `name`.
    pub fn files_called(attributes: Vec<FileAttributes>, name: &str) -> (found: Vec<
        FileAttributes,
    >)
        ensures
            records(found@) == called(records(attributes@), name@),
    {
        let ghost all = records(attributes@);
        let mut found: Vec<FileAttributes> = Vec::new();
        let mut i: usize = 0;
        assert(all.take(0) == Seq::<FileRecord>::empty());
        while i < attributes.len()
            invariant
                i <= attributes.len(),
                all == records(attributes@),
                records(found@) == called(all.take(i as int), name@),
            decreases attributes.len() - i,
        {
            let ghost before = records(found@);
            proof {
                assert(all.take(i + 1).drop_last() == all.take(i as int));
                assert(all.take(i + 1).last() == attributes@[i as int]@);
            }
            if same_text(attributes[i].name.as_str(), name) {
                found.push(attributes[i].copy());
                assert(records(found@) == before.push(attributes@[i as int]@));
            }
            i += 1;
        }
        assert(all.take(i as int) == all);
        found
    }
}

/// Whether the text `name` starts with the characters of `prefix`.
fn starts_with(name: &str, prefix: &Vec<char>) -> (r: bool)
    ensures
        r == has_prefix(name@, prefix@),
{
    let chars = chars_of(name);
    if prefix.len() > chars.len() {
        return false;
    }
    let mut i: usize = 0;
    while i < prefix.len()
        invariant
            i <= prefix.len(),
            prefix.len() <= chars.len(),
            chars@ == name@,
            forall|k: int| 0 <= k < i ==> chars@[k] == prefix@[k],
        decreases prefix.len() - i,
    {
        if chars[i] != prefix[i] {
            assert(name@.take(prefix.len() as int)[i as int] != prefix@[i as int]);
            return false;
        }
        i += 1;
    }
    assert(name@.take(prefix.len() as int) =~= prefix@);
    true
}

} // verus!
