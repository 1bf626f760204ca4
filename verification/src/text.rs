//! UTF-8 view of strings: byte lengths, character boundaries, and the
//! `String` operations of std that work on byte positions.
use vstd::prelude::*;
use vstd::utf8::encode_utf8;
use vstd::utf8::encode_scalar;

verus! {

/// Number of bytes of the UTF-8 encoding of `s`.
pub open spec fn byte_len(s: Seq<char>) -> nat {
    encode_utf8(s).len()
}

/// Number of bytes of the UTF-8 encoding of one character.
pub open spec fn char_width(c: char) -> nat {
    encode_scalar(c as u32).len()
}

/// `at` is the byte offset of a character boundary of `s` (its end included).
pub open spec fn on_boundary(s: Seq<char>, at: int) -> bool {
    exists|k: int| 0 <= k <= s.len() && #[trigger] byte_len(s.take(k)) == at
}

/// The number of characters that precede the byte offset `at` of `s`.
pub open spec fn char_index(s: Seq<char>, at: int) -> int {
    choose|k: int| 0 <= k <= s.len() && #[trigger] byte_len(s.take(k)) == at
}

/// Every character of `s` is ASCII.
pub open spec fn all_ascii(s: Seq<char>) -> bool {
    forall|i: int| 0 <= i < s.len() ==> (#[trigger] s[i] as u32) < 0x80
}

pub proof fn lemma_char_width(c: char)
    ensures
        1 <= char_width(c) <= 4,
        (c as u32) < 0x80 ==> char_width(c) == 1,
{
}

pub proof fn lemma_encode_concat(a: Seq<char>, b: Seq<char>)
    ensures
        encode_utf8(a + b) == encode_utf8(a) + encode_utf8(b),
    decreases a.len(),
{
    if a.len() == 0 {
        assert(a + b =~= b);
        assert(encode_utf8(a) =~= Seq::<u8>::empty());
        assert(encode_utf8(a) + encode_utf8(b) =~= encode_utf8(b));
    } else {
        assert((a + b).drop_first() =~= a.drop_first() + b);
        assert((a + b)[0] == a[0]);
        lemma_encode_concat(a.drop_first(), b);
        let e0 = encode_scalar(a[0] as u32);
        assert(e0 + (encode_utf8(a.drop_first()) + encode_utf8(b)) =~= (e0 + encode_utf8(
            a.drop_first(),
        )) + encode_utf8(b));
    }
}

pub proof fn lemma_byte_len_concat(a: Seq<char>, b: Seq<char>)
    ensures
        byte_len(a + b) == byte_len(a) + byte_len(b),
{
    lemma_encode_concat(a, b);
}

pub proof fn lemma_byte_len_single(c: char)
    ensures
        byte_len(seq![c]) == char_width(c),
{
    let s = seq![c];
    assert(s.drop_first() =~= Seq::<char>::empty());
    assert(encode_utf8(s.drop_first()) =~= Seq::<u8>::empty());
    assert(encode_utf8(s) =~= encode_scalar(c as u32));
}

pub proof fn lemma_byte_len_push(s: Seq<char>, c: char)
    ensures
        byte_len(s.push(c)) == byte_len(s) + char_width(c),
{
    assert(s.push(c) =~= s + seq![c]);
    lemma_byte_len_concat(s, seq![c]);
    lemma_byte_len_single(c);
}

/// A string has at least as many bytes as characters.
pub proof fn lemma_len_le_byte_len(s: Seq<char>)
    ensures
        s.len() <= byte_len(s),
        all_ascii(s) ==> byte_len(s) == s.len(),
    decreases s.len(),
{
    if s.len() > 0 {
        let p = s.drop_last();
        lemma_len_le_byte_len(p);
        assert(s =~= p.push(s.last()));
        lemma_byte_len_push(p, s.last());
        lemma_char_width(s.last());
        if all_ascii(s) {
            assert(all_ascii(p)) by {
                assert forall|i: int| 0 <= i < p.len() implies (#[trigger] p[i] as u32) < 0x80 by {
                    assert(p[i] == s[i]);
                }
            }
            assert(s[s.len() - 1] == s.last());
        }
    }
}

/// Byte offsets of prefixes grow strictly with the number of characters.
pub proof fn lemma_prefix_bytes_strict(s: Seq<char>, j: int, k: int)
    requires
        0 <= j < k <= s.len(),
    ensures
        byte_len(s.take(j)) < byte_len(s.take(k)),
{
    assert(s.take(k) =~= s.take(j) + s.subrange(j, k));
    lemma_byte_len_concat(s.take(j), s.subrange(j, k));
    lemma_len_le_byte_len(s.subrange(j, k));
}

/// The prefix of `k` characters ends on the boundary whose index is `k`.
pub proof fn lemma_char_index_of_prefix(s: Seq<char>, k: int)
    requires
        0 <= k <= s.len(),
    ensures
        on_boundary(s, byte_len(s.take(k)) as int),
        char_index(s, byte_len(s.take(k)) as int) == k,
{
    let at = byte_len(s.take(k)) as int;
    assert(0 <= k <= s.len() && byte_len(s.take(k)) == at);
    let c = char_index(s, at);
    if c < k {
        lemma_prefix_bytes_strict(s, c, k);
    } else if c > k {
        lemma_prefix_bytes_strict(s, k, c);
    }
}

/// Facts about a boundary and its character index.
pub proof fn lemma_boundary(s: Seq<char>, at: int)
    requires
        on_boundary(s, at),
    ensures
        0 <= char_index(s, at) <= s.len(),
        byte_len(s.take(char_index(s, at))) == at,
        0 <= at <= byte_len(s),
        (at == byte_len(s)) <==> (char_index(s, at) == s.len()),
{
    let k = char_index(s, at);
    assert(s.take(s.len() as int) =~= s);
    if k < s.len() {
        lemma_prefix_bytes_strict(s, k, s.len() as int);
    }
    if k > 0 {
        lemma_prefix_bytes_strict(s, 0, k);
    } else {
        assert(s.take(0) =~= Seq::<char>::empty());
        assert(encode_utf8(s.take(0)) =~= Seq::<u8>::empty());
    }
}

/// Inserting a character adds its width to the byte length.
pub proof fn lemma_insert_bytes(s: Seq<char>, k: int, c: char)
    requires
        0 <= k <= s.len(),
    ensures
        byte_len(s.insert(k, c)) == byte_len(s) + char_width(c),
{
    assert(s.insert(k, c) =~= s.take(k).push(c) + s.skip(k));
    assert(s =~= s.take(k) + s.skip(k));
    lemma_byte_len_concat(s.take(k).push(c), s.skip(k));
    lemma_byte_len_concat(s.take(k), s.skip(k));
    lemma_byte_len_push(s.take(k), c);
}

/// In an all-ASCII string every byte offset up to its length is a boundary,
/// with the same character index.
pub proof fn lemma_ascii_boundary(s: Seq<char>, at: int)
    requires
        all_ascii(s),
        0 <= at <= s.len(),
    ensures
        on_boundary(s, at),
        char_index(s, at) == at,
{
    assert(all_ascii(s.take(at))) by {
        assert forall|i: int| 0 <= i < s.take(at).len() implies (#[trigger] s.take(at)[i] as u32)
            < 0x80 by {
            assert(s.take(at)[i] == s[i]);
        }
    }
    lemma_len_le_byte_len(s.take(at));
    lemma_char_index_of_prefix(s, at);
}

/// Removing a character from an all-ASCII string leaves an all-ASCII string.
pub proof fn lemma_ascii_remove(s: Seq<char>, k: int)
    requires
        all_ascii(s),
        0 <= k < s.len(),
    ensures
        all_ascii(s.remove(k)),
        byte_len(s.remove(k)) == s.len() - 1,
{
    let t = s.remove(k);
    assert forall|i: int| 0 <= i < t.len() implies (#[trigger] t[i] as u32) < 0x80 by {
        if i < k {
            assert(t[i] == s[i]);
        } else {
            assert(t[i] == s[i + 1]);
        }
    }
    lemma_len_le_byte_len(t);
}

/// `String::push`: appends the character `c` (std panics when the length
/// would pass `isize::MAX` bytes).
#[verifier::external_body]
pub fn string_push(s: &mut String, c: char)
    requires
        byte_len(old(s)@) + char_width(c) <= isize::MAX,
    ensures
        final(s)@ == old(s)@.push(c),
{
    s.push(c)
}

/// `String::len`: the length of the string in bytes (a `String` never
/// holds more than `isize::MAX` bytes).
#[verifier::external_body]
pub fn string_len(s: &String) -> (r: usize)
    ensures
        r == byte_len(s@),
        r <= isize::MAX,
{
    s.len()
}

/// `str::len`: the length of `s` in bytes, which for any `str` is at most
/// `isize::MAX`.
#[verifier::external_body]
pub fn str_len(s: &str) -> (r: usize)
    ensures
        r == byte_len(s@),
        r <= isize::MAX,
{
    s.len()
}

/// `String::insert`: inserts `c` at the byte offset `idx`, which must be a
/// character boundary and leave room for the character (std panics
/// otherwise).
#[verifier::external_body]
pub fn string_insert(s: &mut String, idx: usize, c: char)
    requires
        on_boundary(old(s)@, idx as int),
        byte_len(old(s)@) + char_width(c) <= isize::MAX,
    ensures
        final(s)@ == old(s)@.insert(char_index(old(s)@, idx as int), c),
{
    s.insert(idx, c)
}

/// `String::remove`: removes and returns the character that starts at the
/// byte offset `idx`, which must be a boundary before the end (std panics
/// otherwise).
#[verifier::external_body]
pub fn string_remove(s: &mut String, idx: usize) -> (r: char)
    requires
        on_boundary(old(s)@, idx as int),
        idx < byte_len(old(s)@),
    ensures
        r == old(s)@[char_index(old(s)@, idx as int)],
        final(s)@ == old(s)@.remove(char_index(old(s)@, idx as int)),
{
    s.remove(idx)
}

/// `String::split_off`: keeps the bytes before `at`, which must be a
/// boundary (std panics otherwise), and returns the rest.
#[verifier::external_body]
pub fn string_split_off(s: &mut String, at: usize) -> (r: String)
    requires
        on_boundary(old(s)@, at as int),
    ensures
        final(s)@ == old(s)@.take(char_index(old(s)@, at as int)),
        r@ == old(s)@.skip(char_index(old(s)@, at as int)),
{
    s.split_off(at)
}

/// `String::truncate`: shortens the string to `new_len` bytes; no effect when
/// `new_len` is not less than the length; std panics when `new_len` is inside
/// the string but not on a boundary.
#[verifier::external_body]
pub fn string_truncate(s: &mut String, new_len: usize)
    requires
        new_len >= byte_len(old(s)@) || on_boundary(old(s)@, new_len as int),
    ensures
        final(s)@ == (if new_len >= byte_len(old(s)@) {
            old(s)@
        } else {
            old(s)@.take(char_index(old(s)@, new_len as int))
        }),
{
    s.truncate(new_len)
}

/// Range indexing `&s[start..end]` of a `str`: both ends must be boundaries
/// and `start <= end` (std panics otherwise).
#[verifier::external_body]
pub fn str_slice(s: &str, start: usize, end: usize) -> (r: &str)
    requires
        on_boundary(s@, start as int),
        on_boundary(s@, end as int),
        start <= end,
    ensures
        r@ == s@.subrange(char_index(s@, start as int), char_index(s@, end as int)),
{
    &s[start..end]
}

/// A new `String` holding the characters of `s`.
pub fn string_of(s: &str) -> (r: String)
    ensures
        r@ == s@,
{
    s.to_owned()
}

/// Appends all characters of `t` to `s`.
pub fn push_all(s: &mut String, t: &str)
    ensures
        final(s)@ == old(s)@ + t@,
{
    s.append(t)
}

/// The number of bytes of the UTF-8 encoding of `c`.
pub fn char_len(c: char) -> (r: usize)
    ensures
        r == char_width(c),
{
    proof {
        vstd::utf8::char_is_scalar(c);
    }
    let v = c as u32;
    if v <= 0x7F {
        1
    } else if v <= 0x7FF {
        2
    } else if v <= 0xFFFF {
        3
    } else {
        4
    }
}

/// Whether the byte offset `at` is a character boundary of `s`.
pub fn boundary_at(s: &str, at: usize) -> (r: bool)
    ensures
        r == on_boundary(s@, at as int),
{
    let n = str_len(s);
    let ghost sv = s@;
    let mut pos: usize = 0;
    proof {
        assert(sv.take(0) =~= Seq::<char>::empty());
        assert(encode_utf8(sv.take(0)) =~= Seq::<u8>::empty());
    }
    for c in it: s.chars()
        invariant
            it.seq() == sv,
            sv == s@,
            n == byte_len(sv),
            0 <= it.index() <= sv.len(),
            pos == byte_len(sv.take(it.index() as int)),
            forall|k: int| 0 <= k < it.index() ==> #[trigger] byte_len(sv.take(k)) != at,
    {
        let ghost i = it.index() as int;
        if pos == at {
            proof {
                assert(0 <= i <= sv.len() && byte_len(sv.take(i)) == at);
            }
            return true;
        }
        proof {
            assert(sv.take(i + 1) =~= sv.take(i).push(c));
            lemma_byte_len_push(sv.take(i), c);
            assert(sv.take(i + 1) + sv.skip(i + 1) =~= sv);
            lemma_byte_len_concat(sv.take(i + 1), sv.skip(i + 1));
        }
        pos = pos + char_len(c);
    }
    proof {
        assert(sv.take(sv.len() as int) =~= sv);
    }
    if pos == at {
        return true;
    }
    proof {
        assert(!on_boundary(sv, at as int)) by {
            if on_boundary(sv, at as int) {
                let k = choose|k: int| 0 <= k <= sv.len() && #[trigger] byte_len(sv.take(k)) == at;
                if k < sv.len() {
                    assert(byte_len(sv.take(k)) != at);
                }
            }
        }
    }
    false
}

/// The number of characters of `s` before the boundary `at`.
pub fn char_index_at(s: &str, at: usize) -> (r: usize)
    requires
        on_boundary(s@, at as int),
    ensures
        r == char_index(s@, at as int),
{
    let n = str_len(s);
    let ghost sv = s@;
    proof {
        lemma_boundary(sv, at as int);
        lemma_len_le_byte_len(sv);
    }
    let ghost k = char_index(sv, at as int);
    let mut pos: usize = 0;
    let mut i: usize = 0;
    proof {
        assert(sv.take(0) =~= Seq::<char>::empty());
        assert(encode_utf8(sv.take(0)) =~= Seq::<u8>::empty());
    }
    for c in it: s.chars()
        invariant_except_break
            i as int == it.index(),
        invariant
            it.seq() == sv,
            sv == s@,
            n == byte_len(sv),
            sv.len() <= n,
            0 <= i <= k,
            k <= sv.len(),
            byte_len(sv.take(k)) == at,
            pos == byte_len(sv.take(i as int)),
        ensures
            i == k,
    {
        if pos == at {
            proof {
                if (i as int) < k {
                    lemma_prefix_bytes_strict(sv, i as int, k);
                }
            }
            break;
        }
        proof {
            assert(i < k);
            assert(sv.take(i + 1) =~= sv.take(i as int).push(c));
            lemma_byte_len_push(sv.take(i as int), c);
            assert(sv.take(i + 1) + sv.skip(i + 1) =~= sv);
            lemma_byte_len_concat(sv.take(i + 1), sv.skip(i + 1));
        }
        pos = pos + char_len(c);
        i = i + 1;
    }
    proof {
        if i < k {
            // the loop went through all characters
            assert(i as int == sv.len());
        }
    }
    i
}

} // verus!
