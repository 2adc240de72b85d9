//! Hexadecimal text and mangled names.
use vstd::prelude::*;
use crate::text::{
    chars_of, hex_digit, hex_digit_of, hex_value, hex_value_of, join, join_with, split, split_on,
    string_of, views,
};

verus! {

/// Two lower-case hexadecimal digits per byte, high nibble first.
pub open spec fn hex_string(bytes: Seq<u8>) -> Seq<char> {
    Seq::new(
        2 * bytes.len(),
        |i: int|
            if i % 2 == 0 {
                hex_digit(bytes[i / 2] as int / 16)
            } else {
                hex_digit(bytes[i / 2] as int % 16)
            },
    )
}

/// Renders bytes as lower-case hexadecimal text.
pub fn vec_to_hex_string(vec: &[u8]) -> (s: String)
    ensures
        s@ == hex_string(vec@),
{
    let mut s = String::new();
    let mut i: usize = 0;
    while i < vec.len()
        invariant
            i <= vec.len(),
            s@ == hex_string(vec@.take(i as int)),
        decreases vec.len() - i,
    {
        let b: u8 = vec[i];
        s.push(hex_digit_of(b / 16));
        s.push(hex_digit_of(b % 16));
        assert(vec@.take(i + 1) == vec@.take(i as int).push(b));
        assert(s@ == hex_string(vec@.take(i + 1)));
        i += 1;
    }
    assert(vec@.take(i as int) == vec@);
    s
}

/// What a text of one or two characters stands for as a hexadecimal number:
/// one digit, two digits, or a plus sign and one digit.
pub open spec fn radix16(s: Seq<char>) -> Option<u8> {
    if s.len() == 1 {
        hex_value(s[0])
    } else if s.len() == 2 {
        match hex_value(s[1]) {
            Some(lo) => if s[0] == '+' {
                Some(lo)
            } else {
                match hex_value(s[0]) {
                    Some(hi) => Some((16 * hi + lo) as u8),
                    None => None,
                }
            },
            None => None,
        }
    } else {
        None
    }
}

/// The `i`-th group of two characters of `s`; the last group of a text of
/// odd length has one character.
pub open spec fn hex_chunk(s: Seq<char>, i: int) -> Seq<char> {
    s.subrange(
        2 * i,
        if 2 * i + 2 <= s.len() {
            2 * i + 2
        } else {
            s.len() as int
        },
    )
}

/// Every group of `s` is a hexadecimal number.
pub open spec fn is_hex_string(s: Seq<char>) -> bool {
    forall|i: int| 0 <= i < (s.len() + 1) / 2 ==> (#[trigger] radix16(hex_chunk(s, i))) is Some
}

/// One byte per group of `s`.
pub open spec fn hex_bytes(s: Seq<char>) -> Seq<u8> {
    Seq::new(((s.len() + 1) / 2) as nat, |i: int| radix16(hex_chunk(s, i)).unwrap())
}

/// What two characters stand for as a hexadecimal number.
fn radix16_pair(a: char, b: char) -> (r: Option<u8>)
    ensures
        r == radix16(seq![a, b]),
{
    match hex_value_of(b) {
        Some(lo) => {
            if a == '+' {
                Some(lo)
            } else {
                match hex_value_of(a) {
                    Some(hi) => Some(16 * hi + lo),
                    None => None,
                }
            }
        },
        None => None,
    }
}

/// Reads hexadecimal text as bytes, two characters per byte, or `None` where
/// a group is no hexadecimal number.
pub fn try_hex_string_to_vec(hex_string: &str) -> (r: Option<Vec<u8>>)
    ensures
        r is Some <==> is_hex_string(hex_string@),
        r matches Some(v) ==> v@ == hex_bytes(hex_string@),
{
    let chars = chars_of(hex_string);
    let n = chars.len();
    let count = n / 2 + n % 2;
    let mut out: Vec<u8> = Vec::new();
    let mut k: usize = 0;
    while k < count
        invariant
            n == chars.len(),
            chars@ == hex_string@,
            count == (n + 1) / 2,
            k <= count,
            out.len() == k,
            forall|j: int|
                0 <= j < k ==> radix16(hex_chunk(chars@, j)) == Some(#[trigger] out[j]),
        decreases count - k,
    {
        let i = 2 * k;
        let value = if n - i >= 2 {
            assert(hex_chunk(chars@, k as int) == seq![chars@[i as int], chars@[i + 1]]);
            radix16_pair(chars[i], chars[i + 1])
        } else {
            assert(hex_chunk(chars@, k as int) == seq![chars@[i as int]]);
            hex_value_of(chars[i])
        };
        match value {
            Some(b) => {
                out.push(b);
            },
            None => {
                assert(radix16(hex_chunk(chars@, k as int)) is None);
                return None;
            },
        }
        k += 1;
    }
    assert forall|j: int| 0 <= j < count implies (#[trigger] radix16(
        hex_chunk(chars@, j),
    )) is Some by {
        assert(radix16(hex_chunk(chars@, j)) == Some(out[j]));
    }
    assert(out@ == hex_bytes(chars@));
    Some(out)
}

/// Reads hexadecimal text as bytes, two characters per byte.
pub fn hex_string_to_vec(hex_string: &str) -> (v: Vec<u8>)
    requires
        is_hex_string(hex_string@),
    ensures
        v@ == hex_bytes(hex_string@),
{
    match try_hex_string_to_vec(hex_string) {
        Some(v) => v,
        None => Vec::new(),
    }
}

/// The characters that a mangled name never holds as they are.
pub open spec fn needs_escape(c: char) -> bool {
    c == '%' || c == '/' || c == '\n' || c == '\r'
}

/// One character of a name as it stands in the mangled name: a percent sign
/// and two hexadecimal digits for a reserved character, itself otherwise.
pub open spec fn mangle_char(c: char) -> Seq<char> {
    if needs_escape(c) {
        seq!['%', hex_digit(c as int / 16), hex_digit(c as int % 16)]
    } else {
        seq![c]
    }
}

/// The characters of a name, each as `mangle_char` gives it.
pub open spec fn mangle_chars(s: Seq<char>) -> Seq<char>
    decreases s.len(),
{
    if s.len() == 0 {
        Seq::<char>::empty()
    } else {
        mangle_char(s[0]) + mangle_chars(s.skip(1))
    }
}

/// The mangled form of one path component: empty for the empty name, else
/// the letter `f` and the escaped characters.
pub open spec fn mangled(s: Seq<char>) -> Seq<char> {
    if s.len() == 0 {
        Seq::<char>::empty()
    } else {
        seq!['f'] + mangle_chars(s)
    }
}

/// Every percent sign of `s` is followed by a two-character hexadecimal
/// number.
pub open spec fn well_escaped(s: Seq<char>) -> bool
    decreases s.len(),
{
    if s.len() == 0 {
        true
    } else if s[0] == '%' {
        s.len() >= 3 && radix16(s.subrange(1, 3)) is Some && well_escaped(s.skip(3))
    } else {
        well_escaped(s.skip(1))
    }
}

/// The text with each escape replaced by the character whose code it gives.
pub open spec fn unmangle_chars(s: Seq<char>) -> Seq<char>
    decreases s.len(),
{
    if s.len() == 0 {
        Seq::<char>::empty()
    } else if s[0] == '%' && s.len() >= 3 {
        seq![radix16(s.subrange(1, 3)).unwrap() as char] + unmangle_chars(s.skip(3))
    } else {
        seq![s[0]] + unmangle_chars(s.skip(1))
    }
}

/// The name that a mangled component stands for; empty where the text does
/// not start with the letter `f`.
pub open spec fn unmangled(s: Seq<char>) -> Seq<char> {
    if s.len() == 0 || s[0] != 'f' {
        Seq::<char>::empty()
    } else {
        unmangle_chars(s.skip(1))
    }
}

/// Whether `unmangle_filename` can read `s`: a text that starts with `f` has
/// only complete escapes after it.
pub open spec fn is_mangled(s: Seq<char>) -> bool {
    s.len() > 0 && s[0] == 'f' ==> well_escaped(s.skip(1))
}

/// Whether a mangled name never holds `c` as it is.
fn is_reserved(c: char) -> (b: bool)
    ensures
        b == needs_escape(c),
{
    c == '%' || c == '/' || c == '\n' || c == '\r'
}

/// Appends the characters of a name, each escaped where it is reserved.
fn push_mangled(out: &mut Vec<char>, chars: &Vec<char>)
    ensures
        final(out)@ == old(out)@ + mangle_chars(chars@),
{
    let mut i: usize = 0;
    assert(chars@.skip(0) == chars@);
    while i < chars.len()
        invariant
            i <= chars.len(),
            out@ + mangle_chars(chars@.skip(i as int)) == old(out)@ + mangle_chars(chars@),
        decreases chars.len() - i,
    {
        let c = chars[i];
        let ghost before = out@;
        proof {
            assert(chars@.skip(i as int)[0] == c);
            assert(chars@.skip(i as int).skip(1) == chars@.skip(i + 1));
        }
        if is_reserved(c) {
            let code: u8 = c as u8;
            out.push('%');
            out.push(hex_digit_of(code / 16));
            out.push(hex_digit_of(code % 16));
            assert(out@ == before + mangle_char(c));
        } else {
            out.push(c);
            assert(out@ == before + mangle_char(c));
        }
        assert(out@ + mangle_chars(chars@.skip(i + 1)) == before + (mangle_char(c) + mangle_chars(
            chars@.skip(i + 1),
        )));
        i += 1;
    }
    assert(mangle_chars(chars@.skip(i as int)) == Seq::<char>::empty());
}

/// Mangles one path component.
pub fn mangle_filename(path_um: &str) -> (path: String)
    ensures
        path@ == mangled(path_um@),
{
    let chars = chars_of(path_um);
    let mut out: Vec<char> = Vec::new();
    if chars.len() == 0 {
        return string_of(&out);
    }
    out.push('f');
    push_mangled(&mut out, &chars);
    string_of(&out)
}

/// Reads a mangled path component back, or gives nothing where an escape of
/// the text is incomplete or no hexadecimal number.
pub fn try_unmangle_filename(path_m: &str) -> (r: Option<String>)
    ensures
        r is Some <==> is_mangled(path_m@),
        r matches Some(path) ==> path@ == unmangled(path_m@),
{
    let chars = chars_of(path_m);
    let mut out: Vec<char> = Vec::new();
    if chars.len() == 0 || chars[0] != 'f' {
        return Some(string_of(&out));
    }
    let ghost body = chars@.skip(1);
    let mut i: usize = 1;
    assert(body.skip(0) == body);
    while i < chars.len()
        invariant
            1 <= i <= chars.len(),
            chars@ == path_m@,
            chars@[0] == 'f',
            body == chars@.skip(1),
            well_escaped(body) == well_escaped(body.skip(i - 1)),
            out@ + unmangle_chars(body.skip(i - 1)) == unmangle_chars(body),
        decreases chars.len() - i,
    {
        let c = chars[i];
        let ghost rest = body.skip(i - 1);
        let ghost before = out@;
        assert(rest[0] == c);
        if c == '%' {
            if chars.len() - i < 3 {
                assert(!well_escaped(rest));
                return None;
            }
            assert(rest.subrange(1, 3) == seq![chars@[i + 1], chars@[i + 2]]);
            match radix16_pair(chars[i + 1], chars[i + 2]) {
                Some(b) => {
                    out.push(b as char);
                },
                None => {
                    assert(!well_escaped(rest));
                    return None;
                },
            }
            assert(rest.skip(3) == body.skip(i + 2));
            assert(out@ + unmangle_chars(rest.skip(3)) == before + unmangle_chars(rest));
            i += 3;
        } else {
            out.push(c);
            assert(rest.skip(1) == body.skip(i as int));
            assert(out@ + unmangle_chars(rest.skip(1)) == before + unmangle_chars(rest));
            i += 1;
        }
    }
    assert(unmangle_chars(body.skip(i - 1)) == Seq::<char>::empty());
    Some(string_of(&out))
}

/// Reads a mangled path component back.
pub fn unmangle_filename(path_m: &str) -> (path: String)
    requires
        is_mangled(path_m@),
    ensures
        path@ == unmangled(path_m@),
{
    match try_unmangle_filename(path_m) {
        Some(path) => path,
        None => String::new(),
    }
}

/// Each component mangled by itself.
pub open spec fn mangled_parts(parts: Seq<Seq<char>>) -> Seq<Seq<char>> {
    Seq::new(parts.len(), |i: int| mangled(parts[i]))
}

/// The mangled form of a path: its components between slashes, each mangled,
/// with the slashes kept.
pub open spec fn mangled_path(s: Seq<char>) -> Seq<char> {
    if s.len() == 0 {
        Seq::<char>::empty()
    } else {
        join_with(mangled_parts(split_on(s, '/')), '/')
    }
}

/// Mangles a path component by component.
pub fn mangle(path_um: &str) -> (path: String)
    ensures
        path@ == mangled_path(path_um@),
{
    if path_um.is_empty() {
        return String::new();
    }
    let parts = split(path_um, '/');
    let mut done: Vec<String> = Vec::new();
    let mut i: usize = 0;
    while i < parts.len()
        invariant
            i <= parts.len(),
            views(done@) == mangled_parts(views(parts@)).take(i as int),
        decreases parts.len() - i,
    {
        let ghost before = views(done@);
        let m = mangle_filename(parts[i].as_str());
        done.push(m);
        assert(views(done@) == before.push(mangled(parts@[i as int]@)));
        assert(mangled_parts(views(parts@)).take(i + 1) == mangled_parts(views(parts@)).take(
            i as int,
        ).push(mangled(parts@[i as int]@)));
        i += 1;
    }
    assert(mangled_parts(views(parts@)).take(i as int) == mangled_parts(views(parts@)));
    join(&done, '/')
}

/// The first occurrence of each value of `s`, in the order of `s`.
pub open spec fn first_occurrences(s: Seq<Seq<char>>) -> Seq<Seq<char>>
    decreases s.len(),
{
    if s.len() == 0 {
        Seq::<Seq<char>>::empty()
    } else {
        let before = first_occurrences(s.drop_last());
        if before.contains(s.last()) {
            before
        } else {
            before.push(s.last())
        }
    }
}

/// Whether `items` holds the text `wanted`.
fn holds(items: &Vec<String>, wanted: &String) -> (b: bool)
    ensures
        b == views(items@).contains(wanted@),
{
    let mut i: usize = 0;
    while i < items.len()
        invariant
            i <= items.len(),
            forall|j: int| 0 <= j < i ==> views(items@)[j] != wanted@,
        decreases items.len() - i,
    {
        if items[i] == *wanted {
            assert(views(items@)[i as int] == wanted@);
            return true;
        }
        i += 1;
    }
    false
}

/// Keeps one of each value: the first, in the order in which they came.
pub fn unique(items: Vec<String>) -> (kept: Vec<String>)
    ensures
        views(kept@) == first_occurrences(views(items@)),
{
    let mut kept: Vec<String> = Vec::new();
    let mut i: usize = 0;
    assert(views(items@).take(0) == Seq::<Seq<char>>::empty());
    while i < items.len()
        invariant
            i <= items.len(),
            views(kept@) == first_occurrences(views(items@).take(i as int)),
        decreases items.len() - i,
    {
        let ghost before = views(kept@);
        proof {
            let now = views(items@).take(i + 1);
            assert(now.drop_last() == views(items@).take(i as int));
            assert(now.last() == items@[i as int]@);
        }
        if !holds(&kept, &items[i]) {
            kept.push(items[i].clone());
            assert(views(kept@) == before.push(items@[i as int]@));
        }
        i += 1;
    }
    assert(views(items@).take(i as int) == views(items@));
    kept
}

/// Two hexadecimal digits written for a byte read back as that byte.
pub proof fn lemma_radix16_of_digits(b: u8)
    ensures
        radix16(seq![hex_digit(b as int / 16), hex_digit(b as int % 16)]) == Some(b),
        hex_value(hex_digit(b as int / 16)) == Some((b / 16) as u8),
        hex_value(hex_digit(b as int % 16)) == Some((b % 16) as u8),
        hex_digit(b as int / 16) != '/',
        hex_digit(b as int % 16) != '/',
        hex_digit(b as int / 16) != '+',
{
    let hi = b as int / 16;
    let lo = b as int % 16;
    assert(0 <= hi < 16 && 0 <= lo < 16);
    assert(b == 16 * hi + lo);
}

/// Hexadecimal text read back gives the bytes it was written for, and is
/// twice as long as they are.
pub proof fn lemma_hex_round_trip(bytes: Seq<u8>)
    ensures
        hex_string(bytes).len() == 2 * bytes.len(),
        is_hex_string(hex_string(bytes)),
        hex_bytes(hex_string(bytes)) == bytes,
{
    let s = hex_string(bytes);
    assert forall|i: int| 0 <= i < (s.len() + 1) / 2 implies (#[trigger] radix16(hex_chunk(s, i)))
        == Some(bytes[i]) by {
        lemma_radix16_of_digits(bytes[i]);
        assert(hex_chunk(s, i) == seq![
            hex_digit(bytes[i] as int / 16),
            hex_digit(bytes[i] as int % 16),
        ]);
    }
    assert(hex_bytes(s) =~= bytes);
}

/// A text of lower-case hexadecimal digits, two for each byte.
pub open spec fn is_lower_hex(s: Seq<char>) -> bool {
    &&& s.len() % 2 == 0
    &&& forall|i: int|
        0 <= i < s.len() ==> ((#[trigger] hex_value(s[i])) matches Some(d) && s[i] == hex_digit(
            d as int,
        ))
}

/// Bytes read from lower-case hexadecimal text and written again give the
/// text; the bytes are half as many as its characters.
pub proof fn lemma_hex_text_round_trip(s: Seq<char>)
    requires
        is_lower_hex(s),
    ensures
        is_hex_string(s),
        hex_bytes(s).len() * 2 == s.len(),
        hex_string(hex_bytes(s)) == s,
{
    assert forall|i: int| 0 <= i < (s.len() + 1) / 2 implies {
        &&& (#[trigger] radix16(hex_chunk(s, i))) matches Some(b)
        &&& hex_digit(b as int / 16) == s[2 * i]
        &&& hex_digit(b as int % 16) == s[2 * i + 1]
    } by {
        let a = s[2 * i];
        let b = s[2 * i + 1];
        assert(hex_chunk(s, i) == seq![a, b]);
        assert(hex_value(a) is Some);
        assert(hex_value(b) is Some);
        let hi = hex_value(a).unwrap() as int;
        let lo = hex_value(b).unwrap() as int;
        assert(0 <= hi < 16 && 0 <= lo < 16);
        assert((16 * hi + lo) / 16 == hi);
        assert((16 * hi + lo) % 16 == lo);
    }
    let t = hex_string(hex_bytes(s));
    assert(t.len() == s.len());
    assert forall|j: int| 0 <= j < s.len() implies t[j] == s[j] by {
        let i = j / 2;
        assert(radix16(hex_chunk(s, i)) is Some);
    }
    assert(t =~= s);
}

/// Escaped characters read back as they were, and hold no reserved
/// character but the percent sign.
proof fn lemma_mangle_chars_round_trip(s: Seq<char>)
    ensures
        well_escaped(mangle_chars(s)),
        unmangle_chars(mangle_chars(s)) == s,
        !mangle_chars(s).contains('/'),
        !mangle_chars(s).contains('\n'),
        !mangle_chars(s).contains('\r'),
    decreases s.len(),
{
    if s.len() > 0 {
        let c = s[0];
        let rest = mangle_chars(s.skip(1));
        let all = mangle_chars(s);
        lemma_mangle_chars_round_trip(s.skip(1));
        assert(all == mangle_char(c) + rest);
        if needs_escape(c) {
            let code = c as u8;
            assert(code as int == c as int);
            lemma_radix16_of_digits(code);
            assert(all.subrange(1, 3) == seq![
                hex_digit(c as int / 16),
                hex_digit(c as int % 16),
            ]);
            assert(all.skip(3) == rest);
            assert(code as char == c);
            assert(unmangle_chars(all) == seq![c] + s.skip(1));
        } else {
            assert(all.skip(1) == rest);
            assert(unmangle_chars(all) == seq![c] + s.skip(1));
        }
        assert(seq![c] + s.skip(1) == s);
        assert forall|i: int| 0 <= i < all.len() implies all[i] != '/' && all[i] != '\n' && all[i]
            != '\r' by {
            if i >= mangle_char(c).len() {
                let k = i - mangle_char(c).len();
                assert(all[i] == rest[k]);
                assert(rest.contains(rest[k]));
            }
        }
    }
}

/// A mangled name reads back as the name it was made from. It starts with
/// the letter `f` unless the name is empty, and holds no slash, line feed or
/// carriage return.
pub proof fn lemma_mangle_round_trip(s: Seq<char>)
    ensures
        is_mangled(mangled(s)),
        unmangled(mangled(s)) == s,
        s.len() > 0 ==> mangled(s)[0] == 'f',
        !mangled(s).contains('/'),
        !mangled(s).contains('\n'),
        !mangled(s).contains('\r'),
{
    lemma_mangle_chars_round_trip(s);
    let m = mangled(s);
    if s.len() > 0 {
        assert(m.skip(1) == mangle_chars(s));
        assert forall|i: int| 0 <= i < m.len() implies m[i] != '/' && m[i] != '\n' && m[i]
            != '\r' by {
            if i >= 1 {
                assert(m[i] == mangle_chars(s)[i - 1]);
                assert(mangle_chars(s).contains(mangle_chars(s)[i - 1]));
            }
        }
    }
}

/// Mangling what a mangled name reads back as gives that mangled name again.
pub proof fn lemma_mangle_of_unmangle(m: Seq<char>, s: Seq<char>)
    requires
        m == mangled(s),
    ensures
        mangled(unmangled(m)) == m,
{
    lemma_mangle_round_trip(s);
}

} // verus!
