//! The listings of a chain of backups laid over one another.
use vstd::prelude::*;
use crate::decode_attribut::{records, BpcDigest, FileAttributes, FileRecord, FileType};
use crate::text::same_text;
use crate::util::{hex_string, vec_to_hex_string};

verus! {

/// The index of the first record called `name`; the length of `s` where
/// there is none.
pub open spec fn position(s: Seq<FileRecord>, name: Seq<char>) -> int
    decreases s.len(),
{
    if s.len() == 0 {
        0
    } else if s[0].name == name {
        0
    } else {
        1 + position(s.skip(1), name)
    }
}

/// Whether a record of `s` is called `name`.
pub open spec fn has_name(s: Seq<FileRecord>, name: Seq<char>) -> bool {
    exists|i: int| 0 <= i < s.len() && (#[trigger] s[i]).name == name
}

/// The records of `s` that are not called `name`, in their order.
pub open spec fn without_name(s: Seq<FileRecord>, name: Seq<char>) -> Seq<FileRecord>
    decreases s.len(),
{
    if s.len() == 0 {
        Seq::<FileRecord>::empty()
    } else if s.last().name == name {
        without_name(s.drop_last(), name)
    } else {
        without_name(s.drop_last(), name).push(s.last())
    }
}

/// One record of a later backup laid over what was seen so far: a deleted
/// record takes its name away, any other record stands in place of the one
/// of its name, or comes last where there was none.
pub open spec fn overlay_one(seen: Seq<FileRecord>, r: FileRecord) -> Seq<FileRecord> {
    if r.type_ == FileType::Deleted {
        without_name(seen, r.name)
    } else if position(seen, r.name) < seen.len() {
        seen.update(position(seen, r.name), r)
    } else {
        seen.push(r)
    }
}

/// The records of one backup laid over what was seen so far, one after the
/// other.
pub open spec fn overlay(seen: Seq<FileRecord>, listing: Seq<FileRecord>) -> Seq<FileRecord>
    decreases listing.len(),
{
    if listing.len() == 0 {
        seen
    } else {
        overlay_one(overlay(seen, listing.drop_last()), listing.last())
    }
}

/// What is seen of a directory when the listings of a chain of backups are
/// laid over one another, the first listing at the bottom.
pub open spec fn merged(listings: Seq<Seq<FileRecord>>) -> Seq<FileRecord>
    decreases listings.len(),
{
    if listings.len() == 0 {
        Seq::<FileRecord>::empty()
    } else {
        overlay(merged(listings.drop_last()), listings.last())
    }
}

/// No two records have the same name.
pub open spec fn distinct_names(s: Seq<FileRecord>) -> bool {
    forall|i: int, j: int| 0 <= i < j < s.len() ==> (#[trigger] s[i]).name != (#[trigger] s[j]).name
}

/// The listings of a vector as values.
pub open spec fn listing_views(v: Seq<Vec<FileAttributes>>) -> Seq<Seq<FileRecord>> {
    Seq::new(v.len(), |i: int| records(v[i]@))
}

/// The position of a name is that of the first record of that name.
pub proof fn lemma_position(s: Seq<FileRecord>, name: Seq<char>)
    ensures
        0 <= position(s, name) <= s.len(),
        position(s, name) < s.len() ==> s[position(s, name)].name == name,
        forall|k: int| 0 <= k < position(s, name) ==> (#[trigger] s[k]).name != name,
        has_name(s, name) <==> position(s, name) < s.len(),
    decreases s.len(),
{
    if s.len() > 0 && s[0].name != name {
        let t = s.skip(1);
        lemma_position(t, name);
        assert forall|k: int| 0 <= k < position(s, name) implies (#[trigger] s[k]).name
            != name by {
            if k > 0 {
                assert(s[k] == t[k - 1]);
            }
        }
        if position(t, name) < t.len() {
            assert(s[position(s, name)] == t[position(t, name)]);
        }
        if has_name(s, name) {
            let i = choose|i: int| 0 <= i < s.len() && (#[trigger] s[i]).name == name;
            assert(t[i - 1] == s[i]);
        }
    }
}

/// Taking a name away leaves the other records as they were, and none of
/// that name.
pub proof fn lemma_without_name(s: Seq<FileRecord>, name: Seq<char>)
    ensures
        !has_name(without_name(s, name), name),
        forall|other: Seq<char>|
            other != name ==> (has_name(s, other) <==> #[trigger] has_name(
                without_name(s, name),
                other,
            )),
        distinct_names(s) ==> distinct_names(without_name(s, name)),
        forall|k: int|
            0 <= k < without_name(s, name).len() ==> s.contains(#[trigger] without_name(s, name)[k]),
    decreases s.len(),
{
    if s.len() > 0 {
        let t = s.drop_last();
        let w = without_name(t, name);
        let r = without_name(s, name);
        lemma_without_name(t, name);
        assert forall|k: int| 0 <= k < r.len() implies s.contains(#[trigger] r[k]) by {
            if k < w.len() {
                assert(t.contains(w[k]));
                let j = choose|j: int| 0 <= j < t.len() && t[j] == w[k];
                assert(s[j] == w[k]);
            } else {
                assert(r[k] == s[s.len() - 1]);
            }
        }
        assert forall|other: Seq<char>| other != name implies (has_name(s, other)
            <==> #[trigger] has_name(r, other)) by {
            if has_name(s, other) {
                let i = choose|i: int| 0 <= i < s.len() && (#[trigger] s[i]).name == other;
                if i < t.len() {
                    assert(t[i].name == other);
                    assert(has_name(w, other));
                    let k = choose|k: int| 0 <= k < w.len() && (#[trigger] w[k]).name == other;
                    assert(r[k] == w[k]);
                } else {
                    assert(r[r.len() - 1] == s[i]);
                }
            }
            if has_name(r, other) {
                let k = choose|k: int| 0 <= k < r.len() && (#[trigger] r[k]).name == other;
                assert(s.contains(r[k]));
                let j = choose|j: int| 0 <= j < s.len() && s[j] == r[k];
                assert(s[j].name == other);
            }
        }
        if has_name(r, name) {
            let k = choose|k: int| 0 <= k < r.len() && (#[trigger] r[k]).name == name;
            if k < w.len() {
                assert(w[k].name == name);
            }
        }
        if distinct_names(s) {
            assert forall|i: int, j: int| 0 <= i < j < t.len() implies (#[trigger] t[i]).name != (
            #[trigger] t[j]).name by {
                assert(s[i].name != s[j].name);
            }
            assert forall|i: int, j: int| 0 <= i < j < r.len() implies (#[trigger] r[i]).name != (
            #[trigger] r[j]).name by {
                if j == w.len() {
                    assert(t.contains(w[i]));
                    let a = choose|a: int| 0 <= a < t.len() && t[a] == w[i];
                    assert(s[a].name != s[s.len() - 1].name);
                } else {
                    assert(w[i].name != w[j].name);
                }
            }
        }
    }
}

/// What laying one record over the others does to each name: the record's
/// own name is seen exactly if the record is not a deleted one, and then
/// with this record; every other name is seen as before. Names stay
/// distinct.
pub proof fn lemma_overlay_one(seen: Seq<FileRecord>, r: FileRecord)
    ensures
        has_name(overlay_one(seen, r), r.name) <==> r.type_ != FileType::Deleted,
        r.type_ != FileType::Deleted ==> overlay_one(seen, r)[position(
            overlay_one(seen, r),
            r.name,
        )] == r,
        forall|other: Seq<char>|
            other != r.name ==> (has_name(seen, other) <==> #[trigger] has_name(
                overlay_one(seen, r),
                other,
            )),
        distinct_names(seen) ==> distinct_names(overlay_one(seen, r)),
{
    let out = overlay_one(seen, r);
    lemma_position(seen, r.name);
    lemma_without_name(seen, r.name);
    lemma_position(out, r.name);
    if r.type_ != FileType::Deleted {
        let p = position(seen, r.name);
        if p < seen.len() {
            assert(out[p].name == r.name);
            assert forall|k: int| 0 <= k < p implies (#[trigger] out[k]).name != r.name by {
                assert(seen[k].name != r.name);
            }
            assert(position(out, r.name) == p);
            assert forall|other: Seq<char>| other != r.name implies (has_name(seen, other)
                <==> #[trigger] has_name(out, other)) by {
                if has_name(seen, other) {
                    let i = choose|i: int| 0 <= i < seen.len() && (#[trigger] seen[i]).name
                        == other;
                    assert(out[i].name == other);
                }
                if has_name(out, other) {
                    let i = choose|i: int| 0 <= i < out.len() && (#[trigger] out[i]).name == other;
                    assert(seen[i].name == other);
                }
            }
            if distinct_names(seen) {
                assert forall|i: int, j: int| 0 <= i < j < out.len() implies (#[trigger] out[i]).name
                    != (#[trigger] out[j]).name by {
                    assert(seen[i].name != seen[j].name);
                }
            }
        } else {
            assert(out[seen.len() as int].name == r.name);
            assert forall|k: int| 0 <= k < seen.len() implies (#[trigger] out[k]).name
                != r.name by {
                assert(seen[k].name != r.name);
            }
            assert(position(out, r.name) == seen.len());
            assert forall|other: Seq<char>| other != r.name implies (has_name(seen, other)
                <==> #[trigger] has_name(out, other)) by {
                if has_name(seen, other) {
                    let i = choose|i: int| 0 <= i < seen.len() && (#[trigger] seen[i]).name
                        == other;
                    assert(out[i].name == other);
                }
                if has_name(out, other) {
                    let i = choose|i: int| 0 <= i < out.len() && (#[trigger] out[i]).name == other;
                    assert(seen[i].name == other);
                }
            }
            if distinct_names(seen) {
                assert forall|i: int, j: int| 0 <= i < j < out.len() implies (#[trigger] out[i]).name
                    != (#[trigger] out[j]).name by {
                    if j < seen.len() {
                        assert(seen[i].name != seen[j].name);
                    } else {
                        assert(seen[i].name != r.name);
                    }
                }
            }
        }
    }
}

/// A listing holds a deleted record called `name`.
pub open spec fn deletes(listing: Seq<FileRecord>, name: Seq<char>) -> bool {
    exists|k: int|
        0 <= k < listing.len() && (#[trigger] listing[k]).type_ == FileType::Deleted && listing[k].name
            == name
}

/// Laying a whole listing over the others keeps names distinct, and keeps
/// every name that the listing does not delete.
pub proof fn lemma_overlay(seen: Seq<FileRecord>, listing: Seq<FileRecord>, name: Seq<char>)
    ensures
        distinct_names(seen) ==> distinct_names(overlay(seen, listing)),
        has_name(seen, name) && !deletes(listing, name) ==> has_name(overlay(seen, listing), name),
    decreases listing.len(),
{
    if listing.len() > 0 {
        let before = overlay(seen, listing.drop_last());
        lemma_overlay(seen, listing.drop_last(), name);
        lemma_overlay_one(before, listing.last());
        if has_name(seen, name) && !deletes(listing, name) {
            if deletes(listing.drop_last(), name) {
                let k = choose|k: int|
                    0 <= k < listing.drop_last().len() && (#[trigger] listing.drop_last()[k]).type_
                        == FileType::Deleted && listing.drop_last()[k].name == name;
                assert(listing[k].type_ == FileType::Deleted && listing[k].name == name);
            }
            let r = listing.last();
            assert(listing[listing.len() - 1] == r);
            if r.name == name {
                assert(r.type_ != FileType::Deleted);
            }
        }
    }
}

/// Merging never shows two records of one name.
pub proof fn lemma_merged_distinct(listings: Seq<Seq<FileRecord>>)
    ensures
        distinct_names(merged(listings)),
    decreases listings.len(),
{
    if listings.len() > 0 {
        lemma_merged_distinct(listings.drop_last());
        lemma_overlay(merged(listings.drop_last()), listings.last(), Seq::<char>::empty());
    }
}

/// Merging is monotonic along the chain: a name that is seen once the first
/// `i` backups are laid over one another, so for `i == 1` a name seen in the
/// filled backup, is seen in the end unless a later backup holds a deleted
/// record of that name.
pub proof fn lemma_merge_keeps_visible(listings: Seq<Seq<FileRecord>>, i: int, name: Seq<char>)
    requires
        0 <= i <= listings.len(),
        has_name(merged(listings.take(i)), name),
        forall|j: int| i <= j < listings.len() ==> !deletes(#[trigger] listings[j], name),
    ensures
        has_name(merged(listings), name),
    decreases listings.len() - i,
{
    if i == listings.len() {
        assert(listings.take(i) == listings);
    } else {
        let upto = listings.take(i + 1);
        assert(upto.drop_last() == listings.take(i));
        assert(upto.last() == listings[i]);
        lemma_overlay(merged(listings.take(i)), listings[i], name);
        lemma_merge_keeps_visible(listings, i + 1, name);
    }
}

/// The bytes of `n`, least significant first, without the zero bytes at the
/// end. Zero has no bytes.
pub open spec fn le_trimmed(n: u64) -> Seq<u8>
    decreases n,
{
    if n == 0 {
        Seq::<u8>::empty()
    } else {
        seq![(n % 256) as u8] + le_trimmed(n / 256)
    }
}

/// The name under which a table of inodes holds an inode.
pub open spec fn inode_name(inode: u64) -> Seq<char> {
    hex_string(le_trimmed(inode))
}

/// The name under which a table of inodes holds `inode`.
pub fn inode_file_name(inode: u64) -> (name: String)
    ensures
        name@ == inode_name(inode),
{
    let mut bytes: Vec<u8> = Vec::new();
    let mut n = inode;
    while n > 0
        invariant
            bytes@ + le_trimmed(n) == le_trimmed(inode),
        decreases n,
    {
        let ghost before = bytes@;
        bytes.push((n % 256) as u8);
        assert(before + (seq![(n % 256) as u8] + le_trimmed(n / 256)) == bytes@ + le_trimmed(
            n / 256,
        ));
        n = n / 256;
    }
    assert(bytes@ + Seq::<u8>::empty() == bytes@);
    vec_to_hex_string(bytes.as_slice())
}

/// Whether the content of a record is found through the table of inodes: it
/// has hard links and an inode.
pub open spec fn is_linked(r: FileRecord) -> bool {
    r.nlinks > 0 && r.inode != 0
}

/// A record with the digest that the table of inodes holds for its inode;
/// the record itself where it is not linked or the table does not hold it.
pub open spec fn linked(r: FileRecord, table: Seq<FileRecord>) -> FileRecord {
    let i = position(table, inode_name(r.inode));
    if is_linked(r) && i < table.len() {
        FileRecord { digest_len: table[i].digest_len, digest: table[i].digest, ..r }
    } else {
        r
    }
}

/// The index of the first record of `items` called `name`.
pub fn find_name(items: &Vec<FileAttributes>, name: &str) -> (r: Option<usize>)
    ensures
        match r {
            Some(i) => i == position(records(items@), name@) && i < items.len(),
            None => position(records(items@), name@) == items.len(),
        },
{
    let ghost all = records(items@);
    let mut i: usize = 0;
    proof {
        lemma_position(all, name@);
    }
    while i < items.len()
        invariant
            i <= items.len(),
            all == records(items@),
            forall|k: int| 0 <= k < i ==> (#[trigger] all[k]).name != name@,
            0 <= position(all, name@) <= all.len(),
            position(all, name@) < all.len() ==> all[position(all, name@)].name == name@,
            forall|k: int| 0 <= k < position(all, name@) ==> (#[trigger] all[k]).name != name@,
        decreases items.len() - i,
    {
        if same_text(items[i].name.as_str(), name) {
            assert(all[i as int].name == name@);
            return Some(i);
        }
        i += 1;
    }
    None
}

/// Gives a linked record the digest that the table of inodes holds for it.
pub fn resolve_link(file: FileAttributes, table: &Vec<FileAttributes>) -> (r: FileAttributes)
    ensures
        r@ == linked(file@, records(table@)),
{
    if file.nlinks == 0 || file.inode == 0 {
        return file;
    }
    let name = inode_file_name(file.inode);
    match find_name(table, name.as_str()) {
        Some(i) => {
            let mut file = file;
            file.bpc_digest = BpcDigest {
                len: table[i].bpc_digest.len,
                digest: table[i].bpc_digest.digest.clone(),
            };
            file
        },
        None => file,
    }
}

/// Takes the records called `name` out of `files`.
fn remove_name(files: &mut Vec<FileAttributes>, name: &str)
    ensures
        records(final(files)@) == without_name(records(old(files)@), name@),
{
    let ghost all = records(files@);
    let mut i: usize = 0;
    let ghost mut j: int = 0;
    assert(all.take(0) == Seq::<FileRecord>::empty());
    assert(all.skip(0) == all);
    while i < files.len()
        invariant
            i <= files.len(),
            0 <= j <= all.len(),
            files.len() - i == all.len() - j,
            records(files@).take(i as int) == without_name(all.take(j), name@),
            records(files@).skip(i as int) == all.skip(j),
        decreases files.len() - i,
    {
        let ghost now = records(files@);
        proof {
            assert(now.skip(i as int)[0] == all.skip(j)[0]);
            assert(all.take(j + 1).drop_last() == all.take(j));
            assert(all.take(j + 1).last() == all[j]);
        }
        if same_text(files[i].name.as_str(), name) {
            files.remove(i);
            proof {
                assert(records(files@) == now.remove(i as int));
                assert(records(files@).take(i as int) == now.take(i as int));
                assert(records(files@).skip(i as int) == now.skip(i as int).skip(1));
                assert(all.skip(j).skip(1) == all.skip(j + 1));
                j = j + 1;
            }
        } else {
            proof {
                assert(now.take(i + 1) == now.take(i as int).push(now[i as int]));
                assert(now.skip(i as int).skip(1) == now.skip(i + 1));
                assert(all.skip(j).skip(1) == all.skip(j + 1));
                j = j + 1;
            }
            i += 1;
        }
    }
    assert(records(files@).take(i as int) == records(files@));
    assert(all.take(j) == all);
}

/// Lays one record over `files`.
pub fn overlay_record(files: &mut Vec<FileAttributes>, file: FileAttributes)
    ensures
        records(final(files)@) == overlay_one(records(old(files)@), file@),
{
    let ghost seen = records(files@);
    match file.type_ {
        FileType::Deleted => {
            remove_name(files, file.name.as_str());
        },
        _ => {
            match find_name(files, file.name.as_str()) {
                Some(i) => {
                    files.set(i, file);
                    assert(records(files@) == seen.update(i as int, file@));
                },
                None => {
                    files.push(file);
                    assert(records(files@) == seen.push(file@));
                },
            }
        },
    }
}

/// Lays the records of one backup over `files`, one after the other.
pub fn overlay_listing(files: &mut Vec<FileAttributes>, listing: Vec<FileAttributes>)
    ensures
        records(final(files)@) == overlay(records(old(files)@), records(listing@)),
{
    let ghost seen = records(files@);
    let ghost all = records(listing@);
    let mut i: usize = 0;
    assert(all.take(0) == Seq::<FileRecord>::empty());
    while i < listing.len()
        invariant
            i <= listing.len(),
            all == records(listing@),
            records(files@) == overlay(seen, all.take(i as int)),
        decreases listing.len() - i,
    {
        proof {
            assert(all.take(i + 1).drop_last() == all.take(i as int));
            assert(all.take(i + 1).last() == listing@[i as int]@);
        }
        overlay_record(files, listing[i].copy());
        i += 1;
    }
    assert(all.take(i as int) == all);
}

/// Lays the listings of a chain of backups over one another, the first at
/// the bottom. No two records of the result have the same name.
pub fn merge_listings(listings: Vec<Vec<FileAttributes>>) -> (files: Vec<FileAttributes>)
    ensures
        records(files@) == merged(listing_views(listings@)),
        distinct_names(records(files@)),
{
    let ghost all = listing_views(listings@);
    let mut files: Vec<FileAttributes> = Vec::new();
    let mut listings = listings;
    let mut rest: Vec<Vec<FileAttributes>> = Vec::new();
    let n = listings.len();
    while listings.len() > 0
        invariant
            rest.len() + listings.len() == n,
            all.len() == n,
            forall|j: int| 0 <= j < listings.len() ==> records(#[trigger] listings@[j]@) == all[j],
            forall|j: int| 0 <= j < rest.len() ==> records(#[trigger] rest@[j]@) == all[n - 1 - j],
        decreases listings.len(),
    {
        let last = listings.pop().unwrap();
        rest.push(last);
    }
    let mut done: usize = 0;
    assert(all.take(0) == Seq::<Seq<FileRecord>>::empty());
    while rest.len() > 0
        invariant
            done + rest.len() == n,
            all.len() == n,
            forall|j: int| 0 <= j < rest.len() ==> records(#[trigger] rest@[j]@) == all[n - 1 - j],
            records(files@) == merged(all.take(done as int)),
        decreases rest.len(),
    {
        let listing = rest.pop().unwrap();
        proof {
            assert(all.take(done + 1).drop_last() == all.take(done as int));
            assert(all.take(done + 1).last() == records(listing@));
        }
        overlay_listing(&mut files, listing);
        done += 1;
    }
    proof {
        assert(all.take(done as int) == all);
        lemma_merged_distinct(all);
    }
    files
}

} // verus!
