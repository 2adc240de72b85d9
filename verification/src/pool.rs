//! Where the pool keeps the file of a digest.
use vstd::prelude::*;
use crate::error::PoolError;
use crate::text::{hex_digit, hex_digit_of, push_text, string_of};
use crate::util::{hex_string, vec_to_hex_string};

verus! {

/// The hexadecimal digits of `k`, most significant first, without leading
/// zeros.
pub open spec fn hex_digits(k: nat) -> Seq<char>
    decreases k,
{
    if k < 16 {
        seq![hex_digit(k as int)]
    } else {
        hex_digits(k / 16).push(hex_digit((k % 16) as int))
    }
}

/// `k` in hexadecimal, with a zero before a single digit.
pub open spec fn hex_two_or_more(k: nat) -> Seq<char> {
    if k < 16 {
        seq!['0'] + hex_digits(k)
    } else {
        hex_digits(k)
    }
}

/// The name of a pool file: the collision number in hexadecimal, where
/// there is one, then the digest in hexadecimal.
pub open spec fn pool_file_name(digest: Seq<u8>, collid: Option<u64>) -> Seq<char> {
    match collid {
        Some(k) => hex_two_or_more(k as nat) + hex_string(digest),
        None => hex_string(digest),
    }
}

/// A byte of the digest as it names a directory of the pool: without its
/// lowest bit, in hexadecimal.
pub open spec fn pool_dir_name(b: u8) -> Seq<char> {
    hex_string(seq![b & 0xfe])
}

/// The path of the file of a digest in the pool directory `kind`.
pub open spec fn pool_path(
    topdir: Seq<char>,
    kind: Seq<char>,
    digest: Seq<u8>,
    collid: Option<u64>,
) -> Seq<char> {
    topdir + seq!['/'] + kind + seq!['/'] + pool_dir_name(digest[0]) + seq!['/'] + pool_dir_name(
        digest[1],
    ) + seq!['/'] + pool_file_name(digest, collid)
}

/// Whether a digest can name a file of the pool: it has the two bytes that
/// name the directories of the file.
pub open spec fn locatable(digest: Seq<u8>) -> bool {
    digest.len() >= 2
}

/// Where the file of a digest stands if the pool holds it: in the plain
/// pool and in the compressed pool.
pub struct PoolPaths {
    pub pool: String,
    pub cpool: String,
}

/// Appends the hexadecimal digits of `k`.
fn push_hex_digits(out: &mut Vec<char>, k: u64)
    ensures
        final(out)@ == old(out)@ + hex_digits(k as nat),
    decreases k,
{
    if k >= 16 {
        push_hex_digits(out, k / 16);
    }
    out.push(hex_digit_of((k % 16) as u8));
    assert(out@ == old(out)@ + hex_digits(k as nat));
}

/// The path of the file of a digest in the pool directory `kind`.
fn path_in(topdir: &str, kind: &str, file_hash: &Vec<u8>, collid: Option<u64>) -> (path: String)
    requires
        file_hash.len() >= 2,
    ensures
        path@ == pool_path(topdir@, kind@, file_hash@, collid),
{
    let mut out: Vec<char> = Vec::new();
    push_text(&mut out, topdir);
    out.push('/');
    push_text(&mut out, kind);
    out.push('/');
    let first = vec![file_hash[0] & 0xfe];
    assert(first@ == seq![file_hash@[0] & 0xfe]);
    push_text(&mut out, vec_to_hex_string(first.as_slice()).as_str());
    out.push('/');
    let second = vec![file_hash[1] & 0xfe];
    assert(second@ == seq![file_hash@[1] & 0xfe]);
    push_text(&mut out, vec_to_hex_string(second.as_slice()).as_str());
    out.push('/');
    let ghost before = out@;
    match collid {
        Some(k) => {
            if k < 16 {
                out.push('0');
            }
            push_hex_digits(&mut out, k);
            assert(out@ == before + hex_two_or_more(k as nat));
        },
        None => {},
    }
    push_text(&mut out, vec_to_hex_string(file_hash.as_slice()).as_str());
    assert(out@ == before + pool_file_name(file_hash@, collid));
    string_of(&out)
}

/// Where to look for the file of a digest. A digest of fewer than two bytes
/// fails with `InvalidDigest`.
pub fn pool_paths(topdir: &str, file_hash: &Vec<u8>, collid: Option<u64>) -> (r: Result<
    PoolPaths,
    PoolError,
>)
    ensures
        !locatable(file_hash@) ==> r == Err::<PoolPaths, PoolError>(PoolError::InvalidDigest),
        locatable(file_hash@) ==> (r matches Ok(p) && p.pool@ == pool_path(
            topdir@,
            "pool"@,
            file_hash@,
            collid,
        ) && p.cpool@ == pool_path(topdir@, "cpool"@, file_hash@, collid)),
{
    if file_hash.len() < 2 {
        return Err(PoolError::InvalidDigest);
    }
    Ok(
        PoolPaths {
            pool: path_in(topdir, "pool", file_hash, collid),
            cpool: path_in(topdir, "cpool", file_hash, collid),
        },
    )
}

/// Finds the file of a digest, given whether a file stands at each of the
/// two places of `pool_paths`: the plain pool is taken before the
/// compressed one. Returns the path and whether the file is compressed. A
/// digest of fewer than two bytes fails with `InvalidDigest`, a digest with
/// no file at either place with `NotFound`.
pub fn find_file_in_backuppc(
    topdir: &str,
    file_hash: &Vec<u8>,
    collid: Option<u64>,
    in_pool: bool,
    in_cpool: bool,
) -> (r: Result<(String, bool), PoolError>)
    ensures
        !locatable(file_hash@) ==> r == Err::<(String, bool), PoolError>(
            PoolError::InvalidDigest,
        ),
        locatable(file_hash@) && in_pool ==> (r matches Ok((path, compressed)) && !compressed
            && path@ == pool_path(topdir@, "pool"@, file_hash@, collid)),
        locatable(file_hash@) && !in_pool && in_cpool ==> (r matches Ok((path, compressed))
            && compressed && path@ == pool_path(topdir@, "cpool"@, file_hash@, collid)),
        locatable(file_hash@) && !in_pool && !in_cpool ==> r == Err::<(String, bool), PoolError>(
            PoolError::NotFound,
        ),
{
    let paths = pool_paths(topdir, file_hash, collid)?;
    if in_pool {
        Ok((paths.pool, false))
    } else if in_cpool {
        Ok((paths.cpool, true))
    } else {
        Err(PoolError::NotFound)
    }
}

} // verus!
