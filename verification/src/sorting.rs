//! The order of names, and sorting by it.
use vstd::prelude::*;
use vstd::utf8::encode_utf8;
use crate::decode_attribut::{records, FileAttributes, FileRecord};

verus! {

/// The order of byte strings: by the first byte in which they differ, a
/// prefix before what extends it.
pub open spec fn bytes_le(a: Seq<u8>, b: Seq<u8>) -> bool
    decreases a.len(),
{
    if a.len() == 0 {
        true
    } else if b.len() == 0 {
        false
    } else if a[0] != b[0] {
        a[0] < b[0]
    } else {
        bytes_le(a.skip(1), b.skip(1))
    }
}

/// The order of names: that of their UTF-8 bytes, which is the order of
/// `str`.
pub open spec fn name_le(a: Seq<char>, b: Seq<char>) -> bool {
    bytes_le(encode_utf8(a), encode_utf8(b))
}

/// Whether `a` comes before `b` or is equal to it.
pub fn str_le(a: &str, b: &str) -> (r: bool)
    ensures
        r == name_le(a@, b@),
{
    let x = a.as_bytes();
    let y = b.as_bytes();
    let mut i: usize = 0;
    assert(x@.skip(0) == x@);
    assert(y@.skip(0) == y@);
    while i < x.len() && i < y.len()
        invariant
            i <= x.len(),
            i <= y.len(),
            x@ == encode_utf8(a@),
            y@ == encode_utf8(b@),
            bytes_le(x@, y@) == bytes_le(x@.skip(i as int), y@.skip(i as int)),
        decreases x.len() - i,
    {
        assert(x@.skip(i as int)[0] == x@[i as int]);
        assert(y@.skip(i as int)[0] == y@[i as int]);
        if x[i] != y[i] {
            return x[i] < y[i];
        }
        assert(x@.skip(i as int).skip(1) == x@.skip(i + 1));
        assert(y@.skip(i as int).skip(1) == y@.skip(i + 1));
        i += 1;
    }
    i == x.len()
}

/// Every byte string is before itself or equal to it.
pub proof fn lemma_bytes_le_reflexive(a: Seq<u8>)
    ensures
        bytes_le(a, a),
    decreases a.len(),
{
    if a.len() > 0 {
        lemma_bytes_le_reflexive(a.skip(1));
    }
}

/// Of two byte strings one is before the other or equal to it.
pub proof fn lemma_bytes_le_total(a: Seq<u8>, b: Seq<u8>)
    ensures
        bytes_le(a, b) || bytes_le(b, a),
    decreases a.len(),
{
    if a.len() > 0 && b.len() > 0 && a[0] == b[0] {
        lemma_bytes_le_total(a.skip(1), b.skip(1));
    }
}

/// The order of byte strings is transitive.
pub proof fn lemma_bytes_le_transitive(a: Seq<u8>, b: Seq<u8>, c: Seq<u8>)
    requires
        bytes_le(a, b),
        bytes_le(b, c),
    ensures
        bytes_le(a, c),
    decreases a.len(),
{
    if a.len() > 0 && b.len() > 0 && c.len() > 0 && a[0] == b[0] && b[0] == c[0] {
        lemma_bytes_le_transitive(a.skip(1), b.skip(1), c.skip(1));
    }
}

/// `x` put into `s` behind the last record whose name is not after its own.
pub open spec fn insert_by_name(s: Seq<FileRecord>, x: FileRecord) -> Seq<FileRecord>
    decreases s.len(),
{
    if s.len() == 0 {
        seq![x]
    } else if name_le(s.last().name, x.name) {
        s.push(x)
    } else {
        insert_by_name(s.drop_last(), x).push(s.last())
    }
}

/// The records in ascending order of their names; records of one name stay
/// in the order in which they came.
pub open spec fn sorted_by_name(s: Seq<FileRecord>) -> Seq<FileRecord>
    decreases s.len(),
{
    if s.len() == 0 {
        Seq::<FileRecord>::empty()
    } else {
        insert_by_name(sorted_by_name(s.drop_last()), s.last())
    }
}

/// No record has a name that comes before the name of a record before it.
pub open spec fn names_ascend(s: Seq<FileRecord>) -> bool {
    forall|i: int, j: int| 0 <= i < j < s.len() ==> name_le(#[trigger] s[i].name, #[trigger] s[j].name)
}

/// A record put in by name stands behind the last record that is not
/// after it.
proof fn lemma_insert_at(s: Seq<FileRecord>, x: FileRecord, pos: int)
    requires
        0 <= pos <= s.len(),
        forall|k: int| pos <= k < s.len() ==> !name_le(#[trigger] s[k].name, x.name),
        pos > 0 ==> name_le(s[pos - 1].name, x.name),
    ensures
        insert_by_name(s, x) == s.take(pos).push(x) + s.skip(pos),
    decreases s.len() - pos,
{
    if pos == s.len() {
        assert(s.take(pos) == s);
        assert(s.skip(pos) == Seq::<FileRecord>::empty());
        assert(s.push(x) + Seq::<FileRecord>::empty() == s.push(x));
    } else {
        let t = s.drop_last();
        assert(!name_le(s[s.len() - 1].name, x.name));
        lemma_insert_at(t, x, pos);
        assert(t.take(pos) == s.take(pos));
        assert((t.take(pos).push(x) + t.skip(pos)).push(s.last()) == s.take(pos).push(x) + s.skip(
            pos,
        ));
    }
}

/// Putting a record into records in ascending order leaves them in
/// ascending order, and adds that record and no other.
pub proof fn lemma_insert_ascends(s: Seq<FileRecord>, x: FileRecord)
    requires
        names_ascend(s),
    ensures
        names_ascend(insert_by_name(s, x)),
        insert_by_name(s, x).to_multiset() == s.to_multiset().insert(x),
        insert_by_name(s, x).len() == s.len() + 1,
    decreases s.len(),
{
    broadcast use vstd::seq_lib::group_to_multiset_ensures;

    if s.len() == 0 {
        assert(seq![x] == Seq::<FileRecord>::empty().push(x));
    } else if name_le(s.last().name, x.name) {
        let r = s.push(x);
        assert forall|i: int, j: int| 0 <= i < j < r.len() implies name_le(
            #[trigger] r[i].name,
            #[trigger] r[j].name,
        ) by {
            if j == s.len() {
                if i < s.len() - 1 {
                    assert(name_le(s[i].name, s[s.len() - 1].name));
                    lemma_bytes_le_transitive(
                        encode_utf8(s[i].name),
                        encode_utf8(s.last().name),
                        encode_utf8(x.name),
                    );
                }
            } else {
                assert(name_le(s[i].name, s[j].name));
            }
        }
    } else {
        let t = s.drop_last();
        assert forall|i: int, j: int| 0 <= i < j < t.len() implies name_le(
            #[trigger] t[i].name,
            #[trigger] t[j].name,
        ) by {
            assert(name_le(s[i].name, s[j].name));
        }
        lemma_insert_ascends(t, x);
        let u = insert_by_name(t, x);
        let r = u.push(s.last());
        lemma_bytes_le_total(encode_utf8(s.last().name), encode_utf8(x.name));
        assert forall|i: int, j: int| 0 <= i < j < r.len() implies name_le(
            #[trigger] r[i].name,
            #[trigger] r[j].name,
        ) by {
            if j == u.len() {
                // every record of u is x or a record of t
                assert(u.to_multiset().count(u[i]) > 0);
                if u[i] == x {
                } else {
                    assert(t.to_multiset().count(u[i]) > 0);
                    assert(t.contains(u[i]));
                    let k = choose|k: int| 0 <= k < t.len() && t[k] == u[i];
                    assert(name_le(s[k].name, s[s.len() - 1].name));
                }
            } else {
                assert(name_le(u[i].name, u[j].name));
            }
        }
        assert(s == t.push(s.last()));
    }
}

/// Sorting gives the same records, in ascending order of their names.
pub proof fn lemma_sorted_by_name(s: Seq<FileRecord>)
    ensures
        names_ascend(sorted_by_name(s)),
        sorted_by_name(s).to_multiset() == s.to_multiset(),
        sorted_by_name(s).len() == s.len(),
    decreases s.len(),
{
    broadcast use vstd::seq_lib::group_to_multiset_ensures;

    if s.len() > 0 {
        lemma_sorted_by_name(s.drop_last());
        lemma_insert_ascends(sorted_by_name(s.drop_last()), s.last());
        assert(s == s.drop_last().push(s.last()));
    }
}

/// Sorts records by name; records of one name stay in their order.
pub fn sort_by_name(items: Vec<FileAttributes>) -> (out: Vec<FileAttributes>)
    ensures
        records(out@) == sorted_by_name(records(items@)),
{
    let mut out: Vec<FileAttributes> = Vec::new();
    let mut items = items;
    let ghost all = records(items@);
    let n = items.len();
    // take the records from the back, so that each is moved once
    let mut rest: Vec<FileAttributes> = Vec::new();
    while items.len() > 0
        invariant
            rest.len() + items.len() == n,
            all.len() == n,
            forall|j: int| 0 <= j < items.len() ==> (#[trigger] items@[j])@ == all[j],
            forall|j: int| 0 <= j < rest.len() ==> (#[trigger] rest@[j])@ == all[n - 1 - j],
        decreases items.len(),
    {
        let last = items.pop().unwrap();
        rest.push(last);
    }
    let mut done: usize = 0;
    assert(all.take(0) == Seq::<FileRecord>::empty());
    while rest.len() > 0
        invariant
            done + rest.len() == n,
            all.len() == n,
            forall|j: int| 0 <= j < rest.len() ==> (#[trigger] rest@[j])@ == all[n - 1 - j],
            records(out@) == sorted_by_name(all.take(done as int)),
        decreases rest.len(),
    {
        let x = rest.pop().unwrap();
        assert(x@ == all[done as int]);
        let ghost before = records(out@);
        let mut pos: usize = out.len();
        while pos > 0 && !str_le(out[pos - 1].name.as_str(), x.name.as_str())
            invariant
                pos <= out.len(),
                before == records(out@),
                forall|k: int| pos <= k < before.len() ==> !name_le(
                    #[trigger] before[k].name,
                    x@.name,
                ),
            decreases pos,
        {
            pos -= 1;
        }
        proof {
            lemma_insert_at(before, x@, pos as int);
            assert(all.take(done + 1).drop_last() == all.take(done as int));
            assert(all.take(done + 1).last() == x@);
        }
        out.insert(pos, x);
        assert(records(out@) == before.take(pos as int).push(all[done as int]) + before.skip(
            pos as int,
        ));
        done += 1;
    }
    assert(all.take(done as int) == all);
    out
}

} // verus!
