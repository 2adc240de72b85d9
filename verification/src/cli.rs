//! What the command line decides and prints.
use vstd::prelude::*;
use crate::decode_attribut::{records, FileAttributes, FileRecord, FileType};
use crate::sorting::{sort_by_name, sorted_by_name};
use crate::text::{decimal, decimal_string, push_text, string_of, views};
use crate::util::{hex_string, vec_to_hex_string};

verus! {

/// Why a request on the command line cannot be met.
#[derive(Debug, Clone, Copy, PartialEq, Eq, Hash, Structural)]
pub enum CliError {
    /// A file of a backup was asked for without its host.
    NoHost,
    /// A file of a backup was asked for without the number of the backup.
    NoBackupNumber,
    /// A file of a backup was asked for without its share.
    NoShare,
    /// The record of the file has no digest.
    NoHash,
    /// The backup holds no file of that path, or more than one.
    NotOneFile,
}

impl CliError {
    /// A short description for messages.
    pub open spec fn text(self) -> Seq<char> {
        match self {
            CliError::NoHost => "No host specified"@,
            CliError::NoBackupNumber => "No backup number specified"@,
            CliError::NoShare => "No share specified"@,
            CliError::NoHash => "No hash found"@,
            CliError::NotOneFile => "Multiple or no files found"@,
        }
    }

    /// A short description for messages.
    pub fn message(&self) -> (s: String)
        ensures
            s@ == self.text(),
    {
        match self {
            CliError::NoHost => "No host specified".to_owned(),
            CliError::NoBackupNumber => "No backup number specified".to_owned(),
            CliError::NoShare => "No share specified".to_owned(),
            CliError::NoHash => "No hash found".to_owned(),
            CliError::NotOneFile => "Multiple or no files found".to_owned(),
        }
    }
}

/// What is to be written out: a file of a backup, or what a path or a
/// digest names.
#[derive(Debug, Clone, PartialEq, Eq)]
pub enum CatTarget {
    /// The file of a share of a backup of a host.
    InBackup { hostname: String, number: u32, share: String },
    /// A compressed file at a path, or the pool file of a digest.
    Direct,
}

/// The letter that a listing shows for the kind of a file.
pub open spec fn type_letter(t: FileType) -> char {
    match t {
        FileType::File => '-',
        FileType::Hardlink => '-',
        FileType::Symlink => 'l',
        FileType::Chardev => 'c',
        FileType::Blockdev => 'b',
        FileType::Dir => 'd',
        FileType::Fifo => 'p',
        FileType::Unknown => '?',
        FileType::Socket => 's',
        FileType::Deleted => 'D',
    }
}

/// `yes` where the mode has a bit of `mask`, a dash otherwise.
pub open spec fn bit_letter(mode: u16, mask: u16, yes: char) -> char {
    if mode & mask != 0 {
        yes
    } else {
        '-'
    }
}

/// The kind and the permissions of a file as a listing shows them.
pub open spec fn mode_text(t: FileType, mode: u16) -> Seq<char> {
    seq![
        type_letter(t),
        bit_letter(mode, 0o400, 'r'),
        bit_letter(mode, 0o200, 'w'),
        bit_letter(mode, 0o100, 'x'),
        bit_letter(mode, 0o040, 'r'),
        bit_letter(mode, 0o020, 'w'),
        bit_letter(mode, 0o010, 'x'),
        bit_letter(mode, 0o004, 'r'),
        bit_letter(mode, 0o002, 'w'),
        bit_letter(mode, 0o001, 'x'),
    ]
}

/// `count` spaces.
pub open spec fn spaces(count: nat) -> Seq<char> {
    Seq::new(count, |i: int| ' ')
}

/// The text with spaces behind it up to `width` characters.
pub open spec fn padded(text: Seq<char>, width: nat) -> Seq<char> {
    if text.len() < width {
        text + spaces((width - text.len()) as nat)
    } else {
        text
    }
}

/// The line of a listing for one record.
pub open spec fn ls_line(r: FileRecord) -> Seq<char> {
    mode_text(r.type_, r.mode) + seq![' '] + decimal(r.nlinks as nat) + seq![' '] + padded(
        decimal(r.uid as nat),
        5,
    ) + seq![' '] + padded(decimal(r.gid as nat), 5) + seq![' '] + padded(
        decimal(r.size as nat),
        10,
    ) + seq![' '] + padded(decimal(r.mtime as nat), 12) + seq![' '] + r.name + seq![' ']
        + hex_string(r.digest)
}

/// The lines of a listing: one for each record, in ascending order of the
/// names.
pub open spec fn ls_text(s: Seq<FileRecord>) -> Seq<Seq<char>> {
    Seq::new(s.len(), |i: int| ls_line(sorted_by_name(s)[i]))
}

/// `yes` where the mode has a bit of `mask`, a dash otherwise.
fn bit(mode: u16, mask: u16, yes: char) -> (c: char)
    ensures
        c == bit_letter(mode, mask, yes),
{
    if mode & mask != 0 {
        yes
    } else {
        '-'
    }
}

/// Appends `n` in decimal, with spaces behind it up to `width` characters.
fn push_padded(out: &mut Vec<char>, n: u64, width: usize)
    ensures
        final(out)@ == old(out)@ + padded(decimal(n as nat), width as nat),
{
    let text = decimal_string(n);
    let ghost before = out@;
    push_text(out, text.as_str());
    let len = text.as_str().unicode_len();
    if len < width {
        let mut i: usize = len;
        while i < width
            invariant
                len <= i <= width,
                out@ == before + text@ + spaces((i - len) as nat),
            decreases width - i,
        {
            out.push(' ');
            assert(spaces((i + 1 - len) as nat) == spaces((i - len) as nat).push(' '));
            i += 1;
        }
        assert(before + text@ + spaces((width - len) as nat) == before + (text@ + spaces(
            (width - len) as nat,
        )));
    }
}

/// The line of a listing for one record.
pub fn format_ls_line(attr: &FileAttributes) -> (line: String)
    ensures
        line@ == ls_line(attr@),
{
    let mut out: Vec<char> = Vec::new();
    let letter = match attr.type_ {
        FileType::File => '-',
        FileType::Hardlink => '-',
        FileType::Symlink => 'l',
        FileType::Chardev => 'c',
        FileType::Blockdev => 'b',
        FileType::Dir => 'd',
        FileType::Fifo => 'p',
        FileType::Unknown => '?',
        FileType::Socket => 's',
        FileType::Deleted => 'D',
    };
    out.push(letter);
    out.push(bit(attr.mode, 0o400, 'r'));
    out.push(bit(attr.mode, 0o200, 'w'));
    out.push(bit(attr.mode, 0o100, 'x'));
    out.push(bit(attr.mode, 0o040, 'r'));
    out.push(bit(attr.mode, 0o020, 'w'));
    out.push(bit(attr.mode, 0o010, 'x'));
    out.push(bit(attr.mode, 0o004, 'r'));
    out.push(bit(attr.mode, 0o002, 'w'));
    out.push(bit(attr.mode, 0o001, 'x'));
    assert(out@ == mode_text(attr@.type_, attr@.mode));
    out.push(' ');
    push_text(&mut out, decimal_string(attr.nlinks as u64).as_str());
    out.push(' ');
    push_padded(&mut out, attr.uid as u64, 5);
    out.push(' ');
    push_padded(&mut out, attr.gid as u64, 5);
    out.push(' ');
    push_padded(&mut out, attr.size, 10);
    out.push(' ');
    push_padded(&mut out, attr.mtime, 12);
    out.push(' ');
    push_text(&mut out, attr.name.as_str());
    out.push(' ');
    push_text(&mut out, vec_to_hex_string(attr.bpc_digest.digest.as_slice()).as_str());
    assert(out@ == ls_line(attr@));
    string_of(&out)
}

/// The lines of a listing: one for each record, in ascending order of the
/// names.
pub fn format_ls(attrs: Vec<FileAttributes>) -> (lines: Vec<String>)
    ensures
        views(lines@) == ls_text(records(attrs@)),
{
    let ghost all = records(attrs@);
    proof {
        crate::sorting::lemma_sorted_by_name(all);
    }
    let sorted = sort_by_name(attrs);
    let mut lines: Vec<String> = Vec::new();
    let mut i: usize = 0;
    while i < sorted.len()
        invariant
            i <= sorted.len(),
            lines.len() == i,
            records(sorted@) == sorted_by_name(all),
            sorted@.len() == all.len(),
            forall|k: int| 0 <= k < i ==> lines@[k]@ == ls_line(sorted_by_name(all)[k]),
        decreases sorted.len() - i,
    {
        assert(records(sorted@)[i as int] == sorted@[i as int]@);
        lines.push(format_ls_line(&sorted[i]));
        i += 1;
    }
    assert(views(lines@) =~= ls_text(all));
    lines
}

/// What a request names. A host, the number of a backup or a share asks
/// for a file of a backup, and then all three are needed: what is missing
/// fails, the host before the number and the number before the share.
pub fn cat_target(hostname: Option<String>, number: Option<u32>, share: Option<String>) -> (r:
    Result<CatTarget, CliError>)
    ensures
        hostname is None && number is None && share is None ==> r == Ok::<CatTarget, CliError>(
            CatTarget::Direct,
        ),
        !(hostname is None && number is None && share is None) ==> match (hostname, number, share) {
            (None, _, _) => r == Err::<CatTarget, CliError>(CliError::NoHost),
            (Some(_), None, _) => r == Err::<CatTarget, CliError>(CliError::NoBackupNumber),
            (Some(_), Some(_), None) => r == Err::<CatTarget, CliError>(CliError::NoShare),
            (Some(h), Some(n), Some(s)) => r == Ok::<CatTarget, CliError>(
                CatTarget::InBackup { hostname: h, number: n, share: s },
            ),
        },
{
    if hostname.is_none() && number.is_none() && share.is_none() {
        return Ok(CatTarget::Direct);
    }
    let hostname = match hostname {
        Some(h) => h,
        None => {
            return Err(CliError::NoHost);
        },
    };
    let number = match number {
        Some(n) => n,
        None => {
            return Err(CliError::NoBackupNumber);
        },
    };
    let share = match share {
        Some(s) => s,
        None => {
            return Err(CliError::NoShare);
        },
    };
    Ok(CatTarget::InBackup { hostname, number, share })
}

/// The digest, in hexadecimal, of the one file that was found. More files
/// or none fail with `NotOneFile`, a file whose digest has the length zero
/// with `NoHash`.
pub fn digest_to_cat(attrs: &Vec<FileAttributes>) -> (r: Result<String, CliError>)
    ensures
        attrs.len() != 1 ==> r == Err::<String, CliError>(CliError::NotOneFile),
        attrs.len() == 1 && attrs@[0]@.digest_len == 0 ==> r == Err::<String, CliError>(
            CliError::NoHash,
        ),
        attrs.len() == 1 && attrs@[0]@.digest_len > 0 ==> (r matches Ok(hex) && hex@ == hex_string(
            attrs@[0]@.digest,
        )),
{
    if attrs.len() != 1 {
        return Err(CliError::NotOneFile);
    }
    if attrs[0].bpc_digest.len == 0 {
        return Err(CliError::NoHash);
    }
    Ok(vec_to_hex_string(attrs[0].bpc_digest.digest.as_slice()))
}

} // verus!
