//! Vocabulary helpers for the loader: token lookup, duplicate detection,
//! the byte-level alphabet, merge-entry splitting and ordered substring
//! search.

use vstd::prelude::*;
use vstd::string::*;

use crate::text::str_eq;

verus! {

/// The characters of every string.
pub open spec fn views(v: Seq<String>) -> Seq<Seq<char>> {
    v.map_values(|s: String| s@)
}

/// The first index holding `s`.
pub open spec fn index_of(v: Seq<Seq<char>>, s: Seq<char>) -> Option<int>
    decreases v.len(),
{
    if v.len() == 0 {
        None
    } else if v[0] == s {
        Some(0)
    } else {
        match index_of(v.drop_first(), s) {
            Some(i) => Some(i + 1),
            None => None,
        }
    }
}

pub proof fn lemma_index_of(v: Seq<Seq<char>>, s: Seq<char>)
    ensures
        index_of(v, s) is None <==> !v.contains(s),
        index_of(v, s) matches Some(i) ==> 0 <= i < v.len() && v[i] == s && forall|j: int|
            0 <= j < i ==> v[j] != s,
    decreases v.len(),
{
    if v.len() > 0 {
        lemma_index_of(v.drop_first(), s);
        if v.contains(s) && v[0] != s {
            let k = choose|k: int| 0 <= k < v.len() && v[k] == s;
            assert(v.drop_first()[k - 1] == s);
        }
        if v.drop_first().contains(s) {
            let k = choose|k: int| 0 <= k < v.drop_first().len() && v.drop_first()[k] == s;
            assert(v[k + 1] == s);
        }
        if let Some(i) = index_of(v, s) {
            if i > 0 {
                assert forall|j: int| 0 <= j < i implies v[j] != s by {
                    if j > 0 {
                        assert(v[j] == v.drop_first()[j - 1]);
                    }
                }
            }
        }
    }
}

/// No two entries are equal.
pub open spec fn distinct<T>(v: Seq<T>) -> bool {
    forall|i: int, j: int| 0 <= i < j < v.len() ==> v[i] != v[j]
}

// ------------------------------------------------------- byte alphabet

/// Bytes the GPT-2 byte-level alphabet maps to themselves.
pub open spec fn printable(b: int) -> bool {
    (0x21 <= b <= 0x7E) || (0xA1 <= b <= 0xAC) || (0xAE <= b <= 0xFF)
}

/// How many bytes below `b` are not printable.
pub open spec fn unprintable_below(b: int) -> int
    decreases b,
{
    if b <= 0 {
        0
    } else {
        unprintable_below(b - 1) + if printable(b - 1) {
            0int
        } else {
            1int
        }
    }
}

/// The code point byte-level BPE gives byte `b`: printable bytes map
/// to themselves, the others to 256 + how many unprintable bytes come
/// before them.
pub open spec fn byte_code(b: u8) -> u32 {
    if printable(b as int) {
        b as u32
    } else {
        (256 + unprintable_below(b as int)) as u32
    }
}

proof fn lemma_unprintable_below_mono(a: int, b: int)
    requires
        0 <= a <= b,
    ensures
        unprintable_below(a) <= unprintable_below(b),
        unprintable_below(b) <= b,
    decreases b,
{
    if b > 0 {
        if a < b {
            lemma_unprintable_below_mono(a, b - 1);
        } else {
            lemma_unprintable_below_mono(0, b - 1);
        }
    }
}

/// Byte-level BPE's alphabet is one character per byte: distinct bytes
/// get distinct characters, each a valid scalar below U+0144.
pub proof fn lemma_byte_code_injective(a: u8, b: u8)
    ensures
        byte_code(a) < 0x144,
        a != b ==> byte_code(a) != byte_code(b),
{
    lemma_unprintable_below_mono(0, a as int);
    lemma_unprintable_below_mono(0, b as int);
    if a != b && !printable(a as int) && !printable(b as int) {
        if a < b {
            lemma_unprintable_below_mono(a as int + 1, b as int);
            assert(unprintable_below(a as int + 1) == unprintable_below(a as int) + 1);
        } else {
            lemma_unprintable_below_mono(b as int + 1, a as int);
            assert(unprintable_below(b as int + 1) == unprintable_below(b as int) + 1);
        }
    }
    lemma_unprintable_closed(a as int);
}

/// How many bytes below `b` are unprintable, in closed form.
pub open spec fn unprintable_closed(b: int) -> int {
    if b <= 0x21 {
        b
    } else if b <= 0x7F {
        0x21
    } else if b <= 0xA1 {
        0x21 + (b - 0x7F)
    } else if b <= 0xAD {
        0x43
    } else {
        0x44
    }
}

proof fn lemma_unprintable_closed(b: int)
    requires
        0 <= b <= 256,
    ensures
        unprintable_below(b) == unprintable_closed(b),
    decreases b,
{
    if b > 0 {
        lemma_unprintable_closed(b - 1);
    }
}

fn is_printable(b: u8) -> (r: bool)
    ensures
        r == printable(b as int),
{
    (0x21 <= b && b <= 0x7E) || (0xA1 <= b && b <= 0xAC) || (0xAE <= b && b <= 0xFF)
}

/// The code point byte-level BPE assigns byte `b` (GPT-2's
/// bytes_to_unicode).
pub fn byte_level_code(b: u8) -> (r: u32)
    ensures
        r == byte_code(b),
{
    if is_printable(b) {
        return b as u32;
    }
    // non-printable bytes get 256 + n, where n counts how many earlier
    // bytes were also non-printable, in byte order
    let mut n: u32 = 0;
    let mut cand: u8 = 0;
    while cand < b
        invariant
            cand <= b,
            n == unprintable_below(cand as int),
            n <= cand,
        decreases b - cand,
    {
        if !is_printable(cand) {
            n = n + 1;
        }
        cand = cand + 1;
    }
    256 + n
}

// -------------------------------------------------------------- merges

/// The first index at or after `i` holding a space.
pub open spec fn space_from(s: Seq<char>, i: int) -> Option<int>
    decreases s.len() - i,
{
    if i < 0 || i >= s.len() {
        None
    } else if s[i] == ' ' {
        Some(i)
    } else {
        space_from(s, i + 1)
    }
}

/// The first index of a space, if any.
pub open spec fn first_space(s: Seq<char>) -> Option<int> {
    space_from(s, 0)
}

proof fn lemma_space_from(s: Seq<char>, i: int)
    requires
        0 <= i,
    ensures
        space_from(s, i) matches Some(k) ==> i <= k < s.len() && s[k] == ' ',
        space_from(s, i) is None ==> forall|k: int| i <= k < s.len() ==> s[k] != ' ',
    decreases s.len() - i,
{
    if i < s.len() && s[i] != ' ' {
        lemma_space_from(s, i + 1);
    }
}

/// A merge entry is exactly "left right": one space, both sides full.
pub open spec fn split_merge(s: Seq<char>) -> Option<(Seq<char>, Seq<char>)> {
    match first_space(s) {
        None => None,
        Some(i) => {
            let a = s.take(i);
            let b = s.skip(i + 1);
            if a.len() > 0 && b.len() > 0 && !b.contains(' ') {
                Some((a, b))
            } else {
                None
            }
        },
    }
}

/// A well-formed merge entry is its two sides joined by one space.
pub(crate) proof fn lemma_split_merge_joins(s: Seq<char>)
    ensures
        split_merge(s) matches Some(p) ==> s == p.0 + seq![' '] + p.1,
{
    if let Some(i) = first_space(s) {
        lemma_space_from(s, 0);
        if split_merge(s) is Some {
            assert(s =~= s.take(i) + seq![' '] + s.skip(i + 1));
        }
    }
}

/// Split a merge entry at its space.
#[verifier::loop_isolation(false)]
pub fn split_merge_entry(s: &str) -> (r: Option<(String, String)>)
    ensures
        r matches Some(p) ==> split_merge(s@) == Some((p.0@, p.1@)),
        r is None ==> split_merge(s@) is None,
{
    let n = s.unicode_len();
    let mut i: usize = 0;
    while i < n && s.get_char(i) != ' '
        invariant
            n == s@.len(),
            i <= n,
            space_from(s@, 0) == space_from(s@, i as int),
        decreases n - i,
    {
        i = i + 1;
    }
    if i == n {
        return None;
    }
    let a = s.substring_char(0, i);
    let b = s.substring_char(i + 1, n);
    proof {
        assert(a@ =~= s@.take(i as int));
        assert(b@ =~= s@.skip(i + 1));
    }
    if a.unicode_len() == 0 || b.unicode_len() == 0 {
        return None;
    }
    let bl = b.unicode_len();
    let mut j: usize = 0;
    while j < bl
        invariant
            bl == b@.len(),
            j <= bl,
            forall|k: int| 0 <= k < j ==> b@[k] != ' ',
        decreases bl - j,
    {
        if b.get_char(j) == ' ' {
            proof {
                assert(b@.contains(' '));
            }
            return None;
        }
        j = j + 1;
    }
    Some((String::from_str(a), String::from_str(b)))
}

// ------------------------------------------------------ substring search

/// `needle` occurs in `hay` starting at byte `i`.
pub open spec fn occurs_at(hay: Seq<u8>, needle: Seq<u8>, i: int) -> bool {
    0 <= i && i + needle.len() <= hay.len() && hay.subrange(i, i + needle.len()) == needle
}

/// The first occurrence of `needle` at or after `from`.
pub open spec fn find_from(hay: Seq<u8>, needle: Seq<u8>, from: int) -> Option<int>
    decreases hay.len() + 1 - from,
{
    if from < 0 || from + needle.len() > hay.len() {
        None
    } else if occurs_at(hay, needle, from) {
        Some(from)
    } else {
        find_from(hay, needle, from + 1)
    }
}

fn occurs_at_exec(hay: &[u8], needle: &[u8], i: usize) -> (r: bool)
    requires
        i + needle@.len() <= hay@.len(),
    ensures
        r == occurs_at(hay@, needle@, i as int),
{
    let hl = hay.len();
    let mut k: usize = 0;
    while k < needle.len()
        invariant
            hl == hay@.len(),
            i + needle@.len() <= hay@.len(),
            k <= needle@.len(),
            forall|m: int| 0 <= m < k ==> hay@[i + m] == needle@[m],
        decreases needle.len() - k,
    {
        if hay[i + k] != needle[k] {
            proof {
                assert(hay@.subrange(i as int, i + needle@.len())[k as int] != needle@[k as int]);
            }
            return false;
        }
        k = k + 1;
    }
    proof {
        assert(hay@.subrange(i as int, i + needle@.len()) =~= needle@);
    }
    true
}

/// The first occurrence of `needle` at or after byte `from`.
pub fn find_bytes(hay: &[u8], needle: &[u8], from: usize) -> (r: Option<usize>)
    ensures
        r matches Some(i) ==> find_from(hay@, needle@, from as int) == Some(i as int),
        r is None ==> find_from(hay@, needle@, from as int) is None,
{
    if needle.len() > hay.len() {
        return None;
    }
    let last = hay.len() - needle.len();
    let mut i = from;
    while i <= last
        invariant
            last + needle@.len() == hay@.len(),
            from <= i,
            find_from(hay@, needle@, from as int) == find_from(hay@, needle@, i as int),
        decreases last + 1 - i,
    {
        if occurs_at_exec(hay, needle, i) {
            return Some(i);
        }
        proof {
            assert(find_from(hay@, needle@, i as int) == find_from(hay@, needle@, i + 1));
        }
        if i == last {
            proof {
                assert(find_from(hay@, needle@, i + 1) is None);
            }
            return None;
        }
        i = i + 1;
    }
    proof {
        assert(find_from(hay@, needle@, i as int) is None);
    }
    None
}

/// Whether `needle` occurs anywhere in `hay`.
pub fn contains_bytes(hay: &str, needle: &str) -> (r: bool)
    ensures
        r == (find_from(hay.spec_bytes(), needle.spec_bytes(), 0) is Some),
{
    find_bytes(hay.as_bytes(), needle.as_bytes(), 0).is_some()
}

} // verus!
